use maimai_player::bg::{cell_span, detect_candidate, max_index, quantize5, ramp_char, Bg, BgStyle, Candidate, GRAY_LEVELS};
use maimai_player::chart::StarKind;
use maimai_player::cli::{choose_difficulty, pick, Choice};
use maimai_player::maidata::parse;
use maimai_player::player::{canvas_dims, Action, Controls, Key, PauseClock};
use maimai_player::render::{
    canvas, dim, flash_glyph, note_color, note_glyph, overlay, push_dec, put, simultaneous_flags, truncate, wrap1_8, Cell,
    Color, Rgb,
};
use maimai_player::simai::resolve;

fn chars(s: &str) -> Vec<char> {
    s.chars().collect()
}

#[test]
fn note_color_priority() {
    // break beats everything
    assert_eq!(note_color(true, true, StarKind::Star, true, true), Color::Orange);
    // simultaneous beats star, touch and EX
    assert_eq!(note_color(false, true, StarKind::Star, true, true), Color::Yellow);
    // star or touch beats EX
    assert_eq!(note_color(false, true, StarKind::Spin, false, false), Color::Blue);
    assert_eq!(note_color(false, true, StarKind::Plain, false, true), Color::Blue);
    assert_eq!(note_color(false, true, StarKind::Plain, false, false), Color::Magenta);
    assert_eq!(note_color(false, false, StarKind::Plain, false, false), Color::Pink);
}

#[test]
fn glyphs() {
    assert_eq!(note_glyph(false, false, StarKind::Plain), '●');
    assert_eq!(note_glyph(true, false, StarKind::Star), '★');
    assert_eq!(note_glyph(false, true, StarKind::Spin), '✦');
    assert_eq!(flash_glyph('●'), '◉');
    assert_eq!(flash_glyph('★'), '✦');
    assert_eq!(flash_glyph('x'), 'x');
    assert_eq!(dim(Color::Blue), Color::DimBlue);
    assert_eq!(dim(Color::Pink), Color::Dim);
}

#[test]
fn color_escapes() {
    assert_eq!(Color::Default.ansi(), "\x1b[39m");
    assert_eq!(Color::Pink.ansi(), "\x1b[38;5;213m");
    assert_eq!(Color::Orange.ansi(), "\x1b[38;5;208m");
    assert_eq!(Color::Yellow.ansi(), "\x1b[93m");
    assert_eq!(Color::Gray(0).ansi(), "\x1b[38;5;232m");
    assert_eq!(Color::Gray(11).ansi(), "\x1b[38;5;243m");
    assert_eq!(Color::Gray(40).ansi(), "\x1b[38;5;243m");
    assert_eq!(Color::Rainbow(0).ansi(), "\x1b[38;5;196m");
    assert_eq!(Color::Rainbow(25).ansi(), "\x1b[38;5;202m");
    let mut v = Vec::new();
    push_dec(&mut v, 4096);
    assert_eq!(v, chars("4096"));
}

#[test]
fn canvas_writes_only_changes() {
    let bg = Some(Rgb { r: 1, g: 20, b: 255 });
    let cells = vec![
        Cell { ch: 'a', color: Color::Pink, bg: None },
        Cell { ch: 'b', color: Color::Pink, bg },
        Cell::blank(),
        Cell { ch: 'c', color: Color::Default, bg: None },
    ];
    let text = canvas(&cells, 2, 2);
    let row_end = "\x1b[49m\x1b[K\r\n\x1b[0m";
    let want = format!(
        "\x1b[H\x1b[38;5;213ma\x1b[48;2;1;20;255mb{row_end} c{row_end}\x1b[0m"
    );
    assert_eq!(text, want);
}

#[test]
fn put_stays_inside_and_keeps_background() {
    let bg = Some(Rgb { r: 9, g: 9, b: 9 });
    let mut cells = vec![Cell::blank(); 6];
    cells[4].bg = bg;
    put(&mut cells, 3, 2, 1, 1, '★', Color::Blue);
    assert_eq!(cells[4], Cell { ch: '★', color: Color::Blue, bg });
    let before = cells.clone();
    put(&mut cells, 3, 2, 3, 0, 'x', Color::Pink);
    put(&mut cells, 3, 2, -1, 0, 'x', Color::Pink);
    put(&mut cells, 3, 2, 0, 2, 'x', Color::Pink);
    assert_eq!(cells, before);
}

#[test]
fn truncate_counts_chars() {
    assert_eq!(truncate("héllo", 3), "hél");
    assert_eq!(truncate("ab", 5), "ab");
    assert_eq!(truncate("ab", 0), "");
}

#[test]
fn each_notes_are_simultaneous() {
    assert_eq!(flags_of(&["1/2,3,4/5/6,"]), vec![true, true, false, true, true, true]);
}

/// EACH flags of a chart, judged by the notes' times in seconds.
fn flags_of(lines: &[&str]) -> Vec<bool> {
    let m: Vec<Vec<char>> = lines.iter().map(|l| chars(l)).collect();
    let mut w = Vec::new();
    let c = resolve(&m, &chars("120"), 4, &mut w);
    let bpm = |b: maimai_player::chart::Bpm| -> f32 {
        match b {
            maimai_player::chart::Bpm::Initial => 120.0,
            maimai_player::chart::Bpm::Written(sp) => m[sp.line][sp.start..sp.end].iter().collect::<String>().parse().unwrap(),
        }
    };
    let mut times = vec![0.0f32];
    for s in &c.steps {
        let t = *times.last().unwrap() + 240.0 / (bpm(s.bpm) * s.divisor as f32);
        times.push(t);
    }
    let keys: Vec<u32> = c.events.iter().map(|e| times[e.tick].to_bits()).collect();
    simultaneous_flags(&keys)
}

#[test]
fn notes_at_the_same_second_are_simultaneous() {
    // a tempo too large for f32 makes a step of 0 s: both notes hit at 0 s
    assert_eq!(flags_of(&["(1e39)1,2,"]), vec![true, true]);
    assert_eq!(flags_of(&["1,2,"]), vec![false, false]);
}

#[test]
fn ring_glyphs_over_a_backdrop() {
    let bg = Some(Rgb { r: 4, g: 4, b: 4 });
    let mut base = vec![Cell { ch: '.', color: Color::Gray(3), bg }; 3];
    let top = vec![Cell::blank(), Cell { ch: '1', color: Color::Dim, bg: None }, Cell::blank()];
    overlay(&mut base, &top);
    assert_eq!(base[0], Cell { ch: '.', color: Color::Gray(3), bg });
    assert_eq!(base[1], Cell { ch: '1', color: Color::Dim, bg });
    assert_eq!(base[2], Cell { ch: '.', color: Color::Gray(3), bg });
}

#[test]
fn ring_wraps() {
    assert_eq!(wrap1_8(0), 8);
    assert_eq!(wrap1_8(9), 1);
    assert_eq!(wrap1_8(-1), 7);
    assert_eq!(wrap1_8(8), 8);
}

#[test]
fn background_style_names() {
    assert_eq!(BgStyle::parse("ramp"), Some(BgStyle::CharRamp));
    assert_eq!(BgStyle::parse("cells"), Some(BgStyle::TruecolorBg));
    assert_eq!(BgStyle::parse("Ramp"), None);
    assert_eq!(BgStyle::parse(""), None);
}

#[test]
fn ramp_and_quantize() {
    assert_eq!(max_index(5), 5);
    assert_eq!(max_index(10), 11);
    assert_eq!(max_index(1), 1);
    assert_eq!(max_index(0), 1);
    assert_eq!(GRAY_LEVELS, 12);
    assert_eq!(ramp_char(0), ' ');
    assert_eq!(ramp_char(5), '-');
    assert_eq!(ramp_char(11), '@');
    assert_eq!(quantize5(0), 4);
    assert_eq!(quantize5(13), 12);
    assert_eq!(quantize5(255), 252);
}

#[test]
fn cell_spans_cover_the_source() {
    assert_eq!(cell_span(0, 10, 3), (0, 3));
    assert_eq!(cell_span(1, 10, 3), (3, 6));
    assert_eq!(cell_span(2, 10, 3), (6, 10));
    // a source smaller than the canvas: every cell still gets a pixel
    assert_eq!(cell_span(0, 2, 4), (0, 1));
    assert_eq!(cell_span(3, 2, 4), (1, 2));
}

#[test]
fn backdrop_layers_come_when_due() {
    let mut b = Bg::new(15, true);
    assert_eq!(b.level(), 10);
    assert!(b.enabled());
    assert!(b.layer(80, 24, false));
    assert!(!b.layer(80, 24, false));
    assert!(b.layer(80, 24, true));
    assert!(b.layer(100, 24, false));
    b.set_level(3);
    assert!(b.layer(100, 24, false));
    b.set_level(3);
    assert!(!b.layer(100, 24, false));
    b.cycle_level();
    assert_eq!(b.level(), 4);
    let mut top = Bg::new(10, true);
    top.cycle_level();
    assert_eq!(top.level(), 0);
    assert!(!top.enabled());
    assert!(!top.layer(80, 24, true));
    b.drop_source();
    assert!(!b.enabled());
    assert!(!b.layer(1, 1, true));
}

#[test]
fn canvas_size_from_terminal() {
    assert_eq!(canvas_dims(80, 24), (79, 22));
    assert_eq!(canvas_dims(21, 14), (20, 12));
    assert_eq!(canvas_dims(10, 5), (20, 12));
    assert_eq!(canvas_dims(0, 0), (20, 12));
}

#[test]
fn keys_drive_controls() {
    assert_eq!(Controls::new(0).speed, 1);
    assert_eq!(Controls::new(15).speed, 10);
    let mut c = Controls::new(10);
    assert_eq!(c.handle(Key::SpeedUp), Action::Nothing);
    assert_eq!(c.speed, 10);
    assert_eq!(c.handle(Key::SpeedDown), Action::Nothing);
    assert_eq!(c.speed, 9);
    assert_eq!(c.handle(Key::Pause), Action::Pause);
    assert!(c.paused);
    assert_eq!(c.handle(Key::Pause), Action::Resume);
    assert!(!c.paused);
    assert_eq!(c.handle(Key::Mute), Action::SetMuted(true));
    assert_eq!(c.handle(Key::Mute), Action::SetMuted(false));
    assert_eq!(c.handle(Key::OffsetUp), Action::NudgeOffset(1));
    assert_eq!(c.handle(Key::OffsetDown), Action::NudgeOffset(-1));
    assert_eq!(c.handle(Key::CycleBackground), Action::CycleBackground);
    assert_eq!(c.handle(Key::Other), Action::Nothing);
    assert!(c.running);
    assert_eq!(c.handle(Key::Interrupt), Action::Stop);
    assert!(!c.running);
}

#[test]
fn chart_clock_stops_while_paused() {
    let mut k = PauseClock::new();
    assert_eq!(k.chart_time(100), 100);
    k.pause(100);
    assert_eq!(k.chart_time(150), 100);
    assert_eq!(k.chart_time(400), 100);
    k.resume(160);
    assert_eq!(k.paused_total, 60);
    assert_eq!(k.chart_time(200), 140);
    k.resume(300);
    assert_eq!(k.paused_total, 60);
}

#[test]
fn difficulty_choice() {
    let one = parse("&inote_2=1,\n");
    assert_eq!(choose_difficulty(&one, None), (Choice::Play(2), false));
    assert_eq!(choose_difficulty(&one, Some(5)), (Choice::Play(2), true));
    assert_eq!(choose_difficulty(&one, Some(2)), (Choice::Play(2), false));
    let two = parse("&inote_2=1,\n&inote_5=2,\n");
    assert_eq!(choose_difficulty(&two, None), (Choice::Ask, false));
    assert_eq!(choose_difficulty(&two, Some(5)), (Choice::Play(5), false));
    let none = parse("&title=x\n");
    assert_eq!(choose_difficulty(&none, Some(1)), (Choice::NoCharts, true));
    // a chart outside 1..=6 is played when asked for, but never offered
    let odd = parse("&inote_7=1,\n");
    assert_eq!(choose_difficulty(&odd, None), (Choice::NoCharts, false));
    assert_eq!(choose_difficulty(&odd, Some(7)), (Choice::Play(7), false));
}

#[test]
fn menu_answers() {
    let two = parse("&inote_2=1,\n&inote_5=2,\n");
    assert_eq!(pick(&two, " 2 \n"), Some(2));
    assert_eq!(pick(&two, "5"), Some(5));
    assert_eq!(pick(&two, "3"), None);
    assert_eq!(pick(&two, "x"), None);
    assert_eq!(pick(&two, "300"), None);
    assert_eq!(pick(&two, ""), None);
}

#[test]
fn backdrop_file_choice() {
    // videos win over images, the first existing one in each list
    assert_eq!(detect_candidate(5, [false, true, true, false], [true, false, false]), Some(Candidate::Video(1)));
    assert_eq!(detect_candidate(5, [false; 4], [false, false, true]), Some(Candidate::Image(2)));
    assert_eq!(detect_candidate(1, [false; 4], [false; 3]), None);
    // level 0 looks for nothing
    assert_eq!(detect_candidate(0, [true; 4], [true; 3]), None);
}

#[test]
fn cell_spans_of_large_sources() {
    let big = 1usize << 40;
    assert_eq!(cell_span(0, big, 4), (0, big / 4));
    assert_eq!(cell_span(3, big, 4), (3 * (big / 4), big));
}
