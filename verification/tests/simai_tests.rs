use maimai_player::chart::{Bpm, Dur, Kind, Lead, NoteEvent, Position, SlidePart, SlideShape, Span, StarKind, Zone};
use maimai_player::render::{arc_steps, fan_targets};
use maimai_player::simai::{resolve, Warning};

fn chars(s: &str) -> Vec<char> {
    s.chars().collect()
}

fn measures(lines: &[&str]) -> Vec<Vec<char>> {
    lines.iter().map(|l| chars(l)).collect()
}

fn run(lines: &[&str], bpm0: &str) -> (maimai_player::chart::Chart, Vec<Warning>, Vec<Vec<char>>) {
    let m = measures(lines);
    let mut w = Vec::new();
    let c = resolve(&m, &chars(bpm0), 4, &mut w);
    (c, w, m)
}

fn num(m: &[Vec<char>], bpm0: &str, b: Bpm) -> f32 {
    match b {
        Bpm::Initial => bpm0.parse().unwrap(),
        Bpm::Written(sp) => m[sp.line][sp.start..sp.end].iter().collect::<String>().parse().unwrap(),
    }
}

/// Seconds of a tick: the step lengths before it.
fn seconds(c: &maimai_player::chart::Chart, m: &[Vec<char>], bpm0: &str, tick: usize) -> f32 {
    let mut t = 0.0f32;
    for s in &c.steps[..tick] {
        t += 240.0 / (num(m, bpm0, s.bpm) * s.divisor as f32);
    }
    t
}

fn sp(line: usize, start: usize, end: usize) -> Span {
    Span { line, start, end }
}

#[test]
fn eighth_notes_at_120_are_quarter_seconds_apart() {
    let (c, w, m) = run(&["{8}4,4,6,6,"], "120");
    assert!(w.is_empty());
    assert_eq!(c.events.len(), 4);
    let times: Vec<f32> = c.events.iter().map(|e| seconds(&c, &m, "120", e.tick)).collect();
    assert_eq!(times, vec![0.0, 0.25, 0.5, 0.75]);
    assert_eq!(c.events[2].pos, Position::Button(6));
}

#[test]
fn break_hold_lasts_bracket_beats() {
    let (c, w, m) = run(&["{1}1,1,1,1,", "1bh[1:2],"], "120");
    assert!(w.is_empty());
    let e = &c.events[4];
    assert_eq!(seconds(&c, &m, "120", e.tick), 8.0);
    match &e.kind {
        Kind::Hold { dur, brk, ex } => {
            assert!(*brk && !*ex);
            assert_eq!(*dur, Dur::Beats { bpm: Bpm::Initial, per: sp(1, 4, 5), count: sp(1, 6, 7) });
            // 2 * 240 / (120 * 1) = 4 s, so the hold ends at 12 s.
            let len = 2.0 * 240.0 / (120.0 * 1.0);
            assert_eq!(len, 4.0f32);
        },
        _ => panic!("not a hold"),
    }
}

#[test]
fn inline_tempo_and_divisor_changes() {
    let (c, w, m) = run(&["(230){2},(240),"], "120");
    assert!(w.is_empty());
    assert_eq!(c.steps.len(), 2);
    assert_eq!(c.steps[0].divisor, 2);
    assert_eq!(c.steps[0].bpm, Bpm::Written(sp(0, 1, 4)));
    assert_eq!(c.steps[1].bpm, Bpm::Written(sp(0, 10, 13)));
    assert_eq!(num(&m, "120", c.steps[1].bpm), 240.0);
    // one beat at 230 bpm over a half note, then at 240
    assert_eq!(seconds(&c, &m, "120", 2), 240.0 / 460.0 + 240.0 / 480.0);
}

#[test]
fn tempo_carries_to_the_next_line() {
    let (c, _w, _m) = run(&["(150)1,", "2,"], "120");
    assert_eq!(c.steps[1].bpm, Bpm::Written(sp(0, 1, 4)));
}

#[test]
fn each_and_adjacent_taps_share_a_tick() {
    let (c, w, _m) = run(&["12,3/4,0,"], "120");
    assert!(w.is_empty());
    let ticks: Vec<usize> = c.events.iter().map(|e| e.tick).collect();
    assert_eq!(ticks, vec![0, 0, 1, 1]);
    assert_eq!(c.steps.len(), 3);
}

#[test]
fn tap_modifiers() {
    let (c, _w, _m) = run(&["1bx,2$,3$$,4@,5?,"], "120");
    let kinds: Vec<(bool, bool, StarKind)> = c.events.iter().map(|e| match e.kind {
        Kind::Tap { brk, ex, star } => (brk, ex, star),
        _ => panic!(),
    }).collect();
    // `5?` is a tapless tap: nothing
    assert_eq!(kinds, vec![
        (true, true, StarKind::Plain),
        (false, false, StarKind::Star),
        (false, false, StarKind::Spin),
        (false, false, StarKind::Plain),
    ]);
}

fn legs(e: &NoteEvent) -> Vec<SlidePart> {
    match &e.kind {
        Kind::Slide { groups, .. } => groups.iter().flat_map(|g| g.legs.iter().cloned()).collect(),
        _ => panic!("not a slide"),
    }
}

#[test]
fn v_slide_keeps_its_turning_button() {
    let (c, w, _m) = run(&["2V46[4:1],"], "120");
    assert!(w.is_empty());
    assert_eq!(legs(&c.events[0]), vec![SlidePart { shape: SlideShape::VBig, from: 2, to: 6, turn: 4 }]);
}

#[test]
fn slide_shapes_and_chains() {
    let (c, w, _m) = run(&["1-3-5[8:1]*<7[4:1],8pp2qq4^6[2:1],"], "120");
    assert!(w.is_empty());
    assert_eq!(legs(&c.events[0]), vec![
        SlidePart { shape: SlideShape::Line, from: 1, to: 3, turn: 0 },
        SlidePart { shape: SlideShape::Line, from: 3, to: 5, turn: 0 },
        SlidePart { shape: SlideShape::ArcLeft, from: 5, to: 7, turn: 0 },
    ]);
    match &c.events[0].kind {
        Kind::Slide { star, lead, groups, .. } => {
            assert_eq!(*star, StarKind::Star);
            assert_eq!(*lead, Lead::Beat(Bpm::Initial));
            assert_eq!(groups.len(), 2);
            assert_eq!(groups[0].legs.len(), 2);
        },
        _ => panic!(),
    }
    let l = legs(&c.events[1]);
    assert_eq!(l.iter().map(|p| p.shape).collect::<Vec<_>>(), vec![SlideShape::PP, SlideShape::QQ, SlideShape::AutoCircle]);
}

#[test]
fn tapless_star_slide() {
    let (c, _w, _m) = run(&["1?-5[4:1],"], "120");
    match &c.events[0].kind {
        Kind::Slide { star, .. } => assert_eq!(*star, StarKind::Plain),
        _ => panic!(),
    }
}

#[test]
fn arc_rule_and_fan() {
    // `1<4` sweeps counter-clockwise 225°, the long way round.
    assert_eq!(arc_steps(SlideShape::ArcLeft, 1, 4), Some(-5));
    assert_eq!(arc_steps(SlideShape::ArcRight, 1, 4), Some(3));
    // from the lower half `>` turns counter-clockwise
    assert_eq!(arc_steps(SlideShape::ArcRight, 4, 1), Some(-3));
    assert_eq!(arc_steps(SlideShape::AutoCircle, 1, 5), Some(4));
    assert_eq!(arc_steps(SlideShape::AutoCircle, 1, 7), Some(-2));
    assert_eq!(arc_steps(SlideShape::Line, 1, 7), None);
    assert_eq!(fan_targets(5), (4, 5, 6));
    assert_eq!(fan_targets(1), (8, 1, 2));
}

#[test]
fn touch_notes() {
    let (c, w, _m) = run(&["A2/B3/E3f,Ch[4:1],C,"], "120");
    assert!(w.is_empty());
    assert_eq!(c.events[0].pos, Position::Touch(Zone::A, 2));
    assert_eq!(c.events[1].pos, Position::Touch(Zone::B, 3));
    assert!(c.events[2].firework);
    match &c.events[3].kind {
        Kind::TouchHold { dur, firework } => {
            assert!(!*firework);
            assert_eq!(*dur, Dur::Beats { bpm: Bpm::Initial, per: sp(0, 13, 14), count: sp(0, 15, 16) });
        },
        _ => panic!(),
    }
    assert_eq!(c.events[3].pos, Position::Touch(Zone::C, 0));
    assert_eq!(c.events[4].pos, Position::Touch(Zone::C, 0));
}

#[test]
fn bracket_forms() {
    let (c, w, _m) = run(&["1h[#1.5],2h[160#4:1],3h[160#2.0],4h[0.5##1.0],5h[0:1],6h[160#0:1]"], "120");
    let durs: Vec<Dur> = c.events.iter().map(|e| match e.kind {
        Kind::Hold { dur, .. } => dur,
        _ => panic!(),
    }).collect();
    assert_eq!(durs[0], Dur::Seconds(sp(0, 4, 7)));
    assert_eq!(durs[1], Dur::Beats { bpm: Bpm::Written(sp(0, 12, 15)), per: sp(0, 16, 17), count: sp(0, 18, 19) });
    assert_eq!(durs[2], Dur::Seconds(sp(0, 28, 31)));
    assert_eq!(durs[3], Dur::DelayPlus { delay: Some(sp(0, 36, 39)), slide: Some(sp(0, 41, 44)) });
    assert_eq!(durs[4], Dur::Default);
    assert_eq!(durs[5], Dur::Default);
    // `[0.5##1.0]` is approximated and reported, `[0:1]` is reported,
    // `[160#0:1]` silently falls back
    assert_eq!(w, vec![Warning::FreeFormBracket { inner: sp(0, 36, 44) }, Warning::UnparsedBracket { inner: sp(0, 49, 52) }]);
}

#[test]
fn zero_tempo_does_not_advance() {
    let (c, w, _m) = run(&["(0)1,2,"], "120");
    assert_eq!(c.steps.len(), 0);
    assert_eq!(c.events.iter().map(|e| e.tick).collect::<Vec<_>>(), vec![0, 0]);
    assert_eq!(w, vec![Warning::ZeroStep { line: 0, tick: 0 }, Warning::ZeroStep { line: 0, tick: 0 }]);
    // a non-positive initial tempo: a slide leads by half a second
    let (c2, _w2, _m2) = run(&["1-5[4:1],"], "-1");
    match &c2.events[0].kind {
        Kind::Slide { lead, .. } => assert_eq!(*lead, Lead::Half),
        _ => panic!(),
    }
}

#[test]
fn every_warning() {
    let (_c, w, _m) = run(
        &["(abc)1,{#2.5}1,{x}1,F1,1h[4:1,1h[1#2#3],1h[x],1-3[4:1]*,1-x,A,"],
        "120",
    );
    assert_eq!(w, vec![
        Warning::BadBpm { line: 0, num: sp(0, 1, 4) },
        Warning::SecondsMeasure { line: 0 },
        Warning::BadDivisor { line: 0, num: sp(0, 16, 17) },
        Warning::UnparsedNote { token: sp(0, 20, 22), tick: 3 },
        Warning::UnterminatedBracket { text: sp(0, 25, 29) },
        Warning::ExoticBracket { inner: sp(0, 33, 38) },
        Warning::UnparsedBracket { inner: sp(0, 43, 44) },
        Warning::SlideEndedEarly { text: sp(0, 47, 55) },
        Warning::SlideNoBracket { text: sp(0, 47, 55) },
        Warning::SlideMissingDst { text: sp(0, 57, 59) },
        Warning::SlideNoBracket { text: sp(0, 57, 59) },
        Warning::TouchMissingIndex { token: sp(0, 60, 61) },
    ]);
}

#[test]
fn notes_come_in_time_order() {
    let (c, _w, _m) = run(&["1,2/3,,4", "(90){16}5,6,7"], "120");
    for k in 1..c.events.len() {
        assert!(c.events[k - 1].tick <= c.events[k].tick);
    }
    assert!(c.events.iter().all(|e| e.tick <= c.steps.len()));
    assert_eq!(c.steps.len(), 7);
}

#[test]
fn last_piece_without_comma_is_a_step() {
    let (c, w, _m) = run(&["1,2"], "120");
    assert!(w.is_empty());
    assert_eq!(c.steps.len(), 2);
    assert_eq!(c.events.iter().map(|e| e.tick).collect::<Vec<_>>(), vec![0, 1]);
}

#[test]
fn zero_divisor_is_ignored() {
    let (c, w, _m) = run(&["{0}1,"], "120");
    assert!(w.is_empty());
    assert_eq!(c.steps[0].divisor, 4);
}

#[test]
fn legs_in_one_group_share_the_bracket() {
    let (c, w, _m) = run(&["1-3-5[4:1],1>5[4:1]b,"], "120");
    assert!(w.is_empty());
    match &c.events[0].kind {
        Kind::Slide { groups, .. } => {
            assert_eq!(groups.len(), 1);
            assert_eq!(groups[0].legs.len(), 2);
            assert_eq!(groups[0].legs[1], SlidePart { shape: SlideShape::Line, from: 3, to: 5, turn: 0 });
        },
        _ => panic!(),
    }
    match &c.events[1].kind {
        Kind::Slide { brk, groups, .. } => {
            assert!(!*brk);
            assert_eq!(groups[0].legs[0].shape, SlideShape::ArcRight);
        },
        _ => panic!(),
    }
}

#[test]
fn center_touch_with_index_and_star_taps() {
    let (c, w, _m) = run(&["C1,1b$,2@$,"], "120");
    assert!(w.is_empty());
    assert_eq!(c.events[0].pos, Position::Touch(Zone::C, 1));
    match c.events[1].kind {
        Kind::Tap { brk, star, .. } => assert!(brk && star == StarKind::Star),
        _ => panic!(),
    }
    match c.events[2].kind {
        Kind::Tap { star, .. } => assert_eq!(star, StarKind::Star),
        _ => panic!(),
    }
}
