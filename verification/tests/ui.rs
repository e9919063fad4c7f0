use mfsk::station::freq_presets::{for_mode, FreqPreset};
use mfsk::station::prefs::{GridSource, WifiPref};
use mfsk::ui::mode_picker::{
    height, mode_name, BootMode, Colour, Commit, ConfigRow, Draw, Drawn, ModePicker, Standing,
};
use mfsk::ui::waterfall::{palette, render, render_marked, row_rgb565_be, Rgb};
use mfsk::ui::waterfall_feed::{init, row_index, Drain, Ring};

// ── The mode picker ─────────────────────────────────────────────────────────

const AT: Standing =
    Standing { mode: BootMode::Wspr, grid: GridSource::Ntp, wifi: WifiPref::Off };

/// A picker at (16, 20), and the middle of row `i`.
fn row(i: u16) -> (u16, u16) {
    (100, 20 + 48 * i + 24)
}

const BAR: (u16, u16) = (100, 20 + 4 * 48 + 10);

fn closed() -> ModePicker {
    ModePicker::new((16, 20), (240, 320))
}

/// One press and release.
fn tap(p: &mut ModePicker, at: (u16, u16), now: u64) -> Option<Commit> {
    let c = p.update(true, at.0, at.1, now);
    p.update(false, 0, 0, now + 1);
    c
}

fn open() -> ModePicker {
    let mut p = closed();
    p.update(true, 5, 5, 1_000);
    p.update(true, 5, 5, 1_300);
    p.update(false, 0, 0, 1_301);
    p
}

fn texts(p: &mut ModePicker, rig_hz: Option<u32>) -> Vec<String> {
    let (draws, kind) = p.render(AT, rig_hz);
    p.frame_drawn(kind);
    draws
        .into_iter()
        .filter_map(|d| match d {
            Draw::Label { text, .. } => Some(text),
            Draw::Fill { .. } => None,
        })
        .collect()
}

#[test]
fn a_hold_opens_the_picker() {
    let mut p = closed();
    assert!(!p.is_open());
    p.update(true, 5, 5, 1_000);
    p.update(true, 9, 9, 1_299);
    assert!(!p.is_open());
    p.update(true, 9, 9, 1_300);
    assert!(p.is_open());
    // A short press does not.
    let mut p = closed();
    tap(&mut p, (5, 5), 0);
    p.update(true, 5, 5, 10_000);
    assert!(!p.is_open());
}

#[test]
fn selecting_and_committing_are_two_presses() {
    let mut p = open();
    assert_eq!(texts(&mut p, None), ["MODE", "CONFIG", "FREQ", "DEMO", "pick a page above"]);
    assert_eq!(tap(&mut p, BAR, 2_000), None);
    assert_eq!(tap(&mut p, row(0), 2_100), None);
    // The running receiver has a star.
    assert_eq!(texts(&mut p, None), ["FT8", "FT4", "WSPR", "*", "FST4", "pick a mode above"]);
    assert_eq!(tap(&mut p, BAR, 2_200), None);
    assert_eq!(tap(&mut p, row(1), 2_300), None);
    assert_eq!(texts(&mut p, None).last().unwrap(), "APPLY FT4");
    // Nothing more to draw.
    assert!(texts(&mut p, None).is_empty());
    assert_eq!(p.update(true, BAR.0, BAR.1, 2_400), Some(Commit::Mode(BootMode::Ft4)));
    // Still down: nothing is committed twice.
    assert_eq!(p.update(true, BAR.0, BAR.1, 2_500), None);
    assert_eq!(texts(&mut p, None).last().unwrap(), "APPLYING FT4");
}

#[test]
fn a_selection_lapses() {
    let mut p = open();
    tap(&mut p, row(0), 2_000);
    tap(&mut p, row(3), 3_000);
    assert_eq!(p.update(false, 0, 0, 11_000), None);
    assert_eq!(tap(&mut p, BAR, 11_000), Some(Commit::Mode(BootMode::Fst4)));
    let mut p = open();
    tap(&mut p, row(0), 2_000);
    tap(&mut p, row(3), 3_000);
    p.update(false, 0, 0, 11_001);
    assert_eq!(tap(&mut p, BAR, 11_001), None);
}

#[test]
fn a_press_outside_dismisses() {
    for outside in [(1, 100), (240, 100), (100, 19), (100, 20 + 192 + 40 + 14)] {
        let mut p = open();
        tap(&mut p, row(1), 2_000);
        tap(&mut p, row(1), 2_100);
        assert_eq!(tap(&mut p, outside, 2_200), None);
        assert!(!p.is_open());
        assert!(p.take_just_closed() && !p.take_just_closed());
    }
    // Nearly right is right.
    let mut p = open();
    tap(&mut p, (2, 30), 2_000);
    assert!(p.is_open());
    assert_eq!(height(), 232);
}

#[test]
fn settings_are_values() {
    let mut p = open();
    tap(&mut p, row(1), 2_000);
    assert_eq!(
        texts(&mut p, None),
        ["TIME: NTP", "*", "TIME: AIR DT", "WIFI: ON", "WIFI: OFF", "*", "pick a setting above"]
    );
    tap(&mut p, row(1), 2_100);
    assert_eq!(tap(&mut p, BAR, 2_200), Some(Commit::Grid(GridSource::AirDt)));
    let mut p = open();
    tap(&mut p, row(1), 2_000);
    tap(&mut p, row(2), 2_100);
    assert_eq!(tap(&mut p, BAR, 2_200), Some(Commit::Wifi(WifiPref::On)));
    assert_eq!(ConfigRow::Wifi(WifiPref::Off).label(), "WIFI: OFF");
}

#[test]
fn the_demo_is_a_replay() {
    let mut p = open();
    tap(&mut p, row(3), 2_000);
    assert_eq!(texts(&mut p, None), ["WAV REPLAY", "pick a mode above"]);
    // A row that the page does not use.
    assert_eq!(tap(&mut p, row(2), 2_050), None);
    assert_eq!(tap(&mut p, BAR, 2_060), None);
    tap(&mut p, row(0), 2_100);
    assert_eq!(tap(&mut p, BAR, 2_200), Some(Commit::Mode(BootMode::Decode)));
}

#[test]
fn dials_come_in_pages() {
    let ft8: Vec<FreqPreset> = for_mode("FT8");
    let n = ft8.len();
    let hz: Vec<u32> = ft8.iter().map(|f| f.hz).collect();
    assert!(n > 4);
    let mut p = open();
    p.set_freq_presets(ft8);
    // It opens where the rig is.
    texts(&mut p, Some(hz[4]));
    tap(&mut p, row(2), 2_000);
    let t = texts(&mut p, Some(hz[4]));
    assert_eq!(t.last().unwrap(), &format!("pick a dial  2/{}", n.div_ceil(3)));
    assert!(t.contains(&"*".to_string()) && t.contains(&"NEXT >".to_string()));
    // NEXT turns the page and selects nothing.
    assert_eq!(tap(&mut p, row(3), 2_100), None);
    assert_eq!(tap(&mut p, BAR, 2_150), None);
    tap(&mut p, row(0), 2_200);
    assert_eq!(tap(&mut p, BAR, 2_300), Some(Commit::Freq(hz[6])));
    assert!(!p.is_open());
}

#[test]
fn no_presets_say_so() {
    let mut p = open();
    p.set_freq_presets(Vec::new());
    tap(&mut p, row(2), 2_000);
    assert_eq!(texts(&mut p, None), ["no presets for this mode"]);
    assert_eq!(tap(&mut p, row(0), 2_100), None);
    assert_eq!(tap(&mut p, BAR, 2_200), None);
}

#[test]
fn a_hold_is_acknowledged_by_a_border() {
    let mut p = closed();
    assert_eq!(p.render(AT, None).0, []);
    p.update(true, 5, 5, 0);
    let (draws, kind) = p.render(AT, None);
    assert_eq!((draws.len(), kind), (4, Drawn::Hold));
    assert_eq!(draws[1], Draw::Fill { x: 0, y: 318, w: 240, h: 2, colour: Colour::Orange });
    p.frame_drawn(kind);
    assert_eq!(p.render(AT, None).0, []);
    p.update(false, 0, 0, 10);
    let (draws, kind) = p.render(AT, None);
    assert_eq!(draws[0], Draw::Fill { x: 0, y: 0, w: 240, h: 2, colour: Colour::Black });
    p.frame_drawn(kind);
    // Opening takes the border away.
    p.update(true, 5, 5, 20);
    let (_, kind) = p.render(AT, None);
    p.frame_drawn(kind);
    p.update(true, 5, 5, 320);
    let (draws, kind) = p.render(AT, None);
    assert_eq!(kind, Drawn::Overlay);
    assert_eq!(draws[0], Draw::Fill { x: 0, y: 0, w: 240, h: 2, colour: Colour::Black });
}

#[test]
fn the_finger_and_the_selection_have_colours() {
    let mut p = open();
    tap(&mut p, row(0), 2_000);
    p.update(true, row(1).0, row(1).1, 2_100);
    let (draws, _) = p.render(AT, None);
    assert!(draws.contains(&Draw::Fill { x: 16, y: 68, w: 208, h: 40, colour: Colour::Orange }));
    assert!(draws.contains(&Draw::Fill { x: 16, y: 212, w: 208, h: 40, colour: Colour::DarkGreen }));
    p.update(false, 0, 0, 2_101);
    let (draws, _) = p.render(AT, None);
    assert!(draws.contains(&Draw::Fill { x: 16, y: 68, w: 208, h: 40, colour: Colour::Green }));
}

#[test]
fn receivers_have_names() {
    assert_eq!(mode_name(BootMode::Uac), Some("FT8"));
    assert_eq!(mode_name(BootMode::Decode), Some("FT8"));
    assert_eq!(mode_name(BootMode::Wspr), Some("WSPR"));
    assert_eq!(mode_name(BootMode::Fst4), Some("FST4"));
    assert_eq!(mode_name(BootMode::Other { code: 9 }), None);
}

// ── The waterfall ───────────────────────────────────────────────────────────

fn line(v: u8) -> [u8; 240] {
    [v; 240]
}

#[test]
fn the_newest_line_is_at_the_bottom() {
    let (a, b) = (line(3), line(7));
    let px = render(&[&a, &b], 320);
    assert_eq!(px.len(), 100 * 240);
    assert_eq!(px[99 * 240], palette(7));
    assert_eq!(px[98 * 240 + 239], palette(3));
    assert_eq!(px[97 * 240], palette(0));
    // More lines than rows: the last ones.
    let all: Vec<[u8; 240]> = (0..120).map(|i| line(i as u8 % 16)).collect();
    let refs: Vec<&[u8; 240]> = all.iter().collect();
    let px = render(&refs, 10);
    assert_eq!(px.len(), 1_000);
    assert_eq!((px[0], px[999]), (palette(20 % 16), palette(119 % 16)));
}

#[test]
fn a_slot_rule_is_dashed() {
    let a = line(2);
    let red = Rgb { r: 31, g: 0, b: 0 };
    let px = render_marked(&[&a], &[true], 240);
    let bottom = &px[99 * 240..];
    for (col, p) in bottom.iter().enumerate() {
        assert_eq!(*p, if col % 6 < 3 { red } else { palette(2) });
    }
    // Marks that do not match the lines mark nothing.
    assert_eq!(render_marked(&[&a], &[], 240), render(&[&a], 240));
    assert_eq!(palette(0x1f), palette(15));
}

/// 16 bits a pixel, high byte first: white has all of red and blue, and half
/// of green.
#[test]
fn a_row_is_packed_for_the_panel() {
    let mut a = line(15);
    a[1] = 12;
    let mut out = [0xaau8; 8];
    row_rgb565_be(Some(&a), false, 3, &mut out);
    let white = (31u16 << 11) | (31 << 5) | 31;
    let orange = (31u16 << 11) | (40 << 5);
    assert_eq!(&out[..2], &white.to_be_bytes());
    assert_eq!(&out[2..4], &orange.to_be_bytes());
    assert_eq!(&out[6..], &[0xaa, 0xaa]);
    row_rgb565_be(Some(&a), true, 3, &mut out);
    assert_eq!(&out[..2], &(31u16 << 11).to_be_bytes());
    row_rgb565_be(None, true, 3, &mut out);
    assert_eq!(&out[..6], &[0; 6]);
}

// ── The feed ────────────────────────────────────────────────────────────────

fn drain(ring: &mut Ring) -> Drain {
    let mut d = Drain::new(0);
    assert!(d.take(ring));
    d
}

#[test]
fn audio_that_does_not_fit_is_counted() {
    let mut ring = init(0);
    ring.push(&[1; 30_000], None);
    ring.push(&[2; 30_000], None);
    ring.missed(5);
    assert_eq!(ring.take_dropped(), 12_005);
    assert_eq!(ring.take_dropped(), 0);
    let mut d = drain(&mut ring);
    assert_eq!((d.audio().len(), d.audio()[29_999], d.audio()[30_000]), (48_000, 1, 2));
    d.done();
    assert!(d.audio().is_empty());
    assert!(!d.take(&mut ring));
}

#[test]
fn a_boundary_marks_its_row() {
    let mut ring = init(15_000);
    ring.push(&[0; 1_000], Some(500));
    ring.push(&[0; 400], Some(100)); // not there yet
    ring.push(&[0; 200], Some(180_000)); // past 1500
    let mut d = drain(&mut ring);
    assert!(!d.row_mark(1_499));
    assert!(d.row_mark(1_500));
    assert!(!d.row_mark(1_600));
    assert_eq!((row_index(true), row_index(false)), (0, 255));
    // Without a clock there are no marks.
    let mut ring = init(15_000);
    ring.push(&[0; 1_000], None);
    ring.push(&[0; 1_000], None);
    assert!(!drain(&mut ring).row_mark(u64::MAX));
    let mut ring = init(0);
    ring.push(&[0; 1_000], Some(10));
    ring.push(&[0; 1_000], Some(10));
    assert!(!drain(&mut ring).row_mark(u64::MAX));
}

/// Only the newest marks are kept, oldest first.
#[test]
fn the_oldest_marks_make_room() {
    let mut ring = init(15_000);
    for _ in 0..11 {
        ring.push(&[0; 10], Some(10));
    }
    // Boundaries at 20, 30, .. 110: ten, of which the last eight are kept.
    let mut d = drain(&mut ring);
    assert!(!d.row_mark(39));
    for pos in (40..=110).step_by(10) {
        assert!(d.row_mark(pos));
    }
    assert!(!d.row_mark(u64::MAX));
}

#[test]
fn a_report_comes_now_and_then() {
    let mut d = Drain::new(5);
    assert!(!d.report_due(10_000_004));
    assert!(d.report_due(10_000_005));
    assert!(!d.report_due(10_000_006));
}
