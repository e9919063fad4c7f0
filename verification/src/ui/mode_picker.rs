//! Mode picker: the way out of whichever receiver is running.
//!
//! An overlay on the panel. Holding a finger anywhere opens it; a tap on a
//! row selects, a press on the bar underneath commits, and a tap outside
//! dismisses. The root names the pages: which receiver boots, the settings
//! that are not a receiver, the dial presets, and a demo.
//!
//! Selecting and committing are two controls, so that no single stray touch
//! can restart the receiver, and a selection left alone lapses.

use crate::fixed::{text32_new, text_push_str, text_str};
use crate::fixed::{lemma_ascii_bytes, text32};
use crate::station::freq_presets::{page, FreqPreset};
use crate::station::freq_presets::rows as preset_rows;
use crate::station::prefs::{GridSource, WifiPref};
use crate::text::{dec_of, string_of};
use crate::text::dec;
use vstd::prelude::*;
use vstd::utf8::encode_utf8;

verus! {

/// What the board boots into.
#[derive(Debug, Clone, Copy, PartialEq, Eq, Structural)]
pub enum BootMode {
    /// A recording, decoded on a loop.
    Decode,
    Uac,
    Ft4,
    Wspr,
    Fst4,
    /// Not a receiver.
    Other { code: u8 },
}

/// Which page the overlay shows.
#[derive(Debug, Clone, Copy, PartialEq, Eq, Structural)]
pub enum Page {
    Root,
    Mode,
    Config,
    /// The running receiver's dial presets.
    Freq,
    Demo,
}

/// What the commit bar hands back. All but a dial restart the board.
#[derive(Debug, Clone, Copy, PartialEq, Eq, Structural)]
pub enum Commit {
    Mode(BootMode),
    Grid(GridSource),
    Wifi(WifiPref),
    /// A dial in Hz.
    Freq(u32),
}

/// One row of the settings: a value, not a setting.
#[derive(Debug, Clone, Copy, PartialEq, Eq, Structural)]
pub enum ConfigRow {
    Grid(GridSource),
    Wifi(WifiPref),
}

/// What a touch landed on.
#[derive(Debug, Clone, Copy, PartialEq, Eq, Structural)]
pub enum Target {
    Mode(usize),
    Commit,
    /// Inside the widget, on a row that the page does not use.
    Dead,
}

pub const WIDTH: u32 = 208;

/// Drawn height of one button.
pub const BUTTON_H: u32 = 40;

/// Distance between button tops.
pub const PITCH: i32 = 48;

/// How long a selection stands before it lapses.
pub const ARM_MS: u64 = 8_000;

/// How long a finger must stay down to open the picker.
pub const OPEN_MS: u64 = 300;

/// Width of the border that acknowledges a hold.
pub const HOLD_BORDER_W: u32 = 2;

/// Height of the commit bar.
pub const COMMIT_H: u32 = 40;

/// Rows the widget is sized for.
pub const ROWS: usize = 4;

/// Slop around the widget: a press that is nearly right does not dismiss.
pub const SLOP: i32 = 14;

/// Total height: the rows and the commit bar.
pub fn height() -> (r: u32)
    ensures
        r == ROWS * PITCH + COMMIT_H,
{
    ROWS as u32 * PITCH as u32 + COMMIT_H
}

/// Top of the commit bar.
pub open spec fn commit_top() -> int {
    ROWS * PITCH
}

// ── Rows ────────────────────────────────────────────────────────────────────

/// The receivers, in draw order.
pub open spec fn mode_row(i: int) -> (BootMode, Seq<char>) {
    if i == 0 {
        (BootMode::Uac, "FT8"@)
    } else if i == 1 {
        (BootMode::Ft4, "FT4"@)
    } else if i == 2 {
        (BootMode::Wspr, "WSPR"@)
    } else {
        (BootMode::Fst4, "FST4"@)
    }
}

fn mode_at(i: usize) -> (r: (BootMode, &'static str))
    ensures
        r.0 == mode_row(i as int).0,
        r.1@ == mode_row(i as int).1,
{
    if i == 0 {
        (BootMode::Uac, "FT8")
    } else if i == 1 {
        (BootMode::Ft4, "FT4")
    } else if i == 2 {
        (BootMode::Wspr, "WSPR")
    } else {
        (BootMode::Fst4, "FST4")
    }
}

/// The name the screen shows for a boot mode. The replay runs the FT8
/// pipeline; what is no receiver has no name.
pub fn mode_name(mode: BootMode) -> (r: Option<&'static str>)
    ensures
        match r {
            Some(name) => (mode == BootMode::Decode && name@ == "FT8"@) || exists|i: int|
                0 <= i < ROWS && (#[trigger] mode_row(i)).0 == mode && mode_row(i).1 == name@,
            None => mode != BootMode::Decode && forall|i: int|
                0 <= i < ROWS ==> (#[trigger] mode_row(i)).0 != mode,
        },
{
    if mode == BootMode::Decode {
        return Some("FT8");
    }
    let mut i: usize = 0;
    while i < ROWS
        invariant
            i <= ROWS,
            mode != BootMode::Decode,
            forall|k: int| 0 <= k < i ==> (#[trigger] mode_row(k)).0 != mode,
        decreases ROWS - i,
    {
        let (m, name) = mode_at(i);
        if m == mode {
            assert(mode_row(i as int).1 == name@);
            return Some(name);
        }
        i += 1;
    }
    None
}

/// The root's rows, in draw order.
pub open spec fn root_row(i: int) -> (Page, Seq<char>) {
    if i == 0 {
        (Page::Mode, "MODE"@)
    } else if i == 1 {
        (Page::Config, "CONFIG"@)
    } else if i == 2 {
        (Page::Freq, "FREQ"@)
    } else {
        (Page::Demo, "DEMO"@)
    }
}

fn root_at(i: usize) -> (r: (Page, &'static str))
    ensures
        r.0 == root_row(i as int).0,
        r.1@ == root_row(i as int).1,
{
    if i == 0 {
        (Page::Mode, "MODE")
    } else if i == 1 {
        (Page::Config, "CONFIG")
    } else if i == 2 {
        (Page::Freq, "FREQ")
    } else {
        (Page::Demo, "DEMO")
    }
}

/// The settings, in draw order: where the slot grid's phase comes from, and
/// whether the network comes up.
pub open spec fn config_row(i: int) -> ConfigRow {
    if i == 0 {
        ConfigRow::Grid(GridSource::Ntp)
    } else if i == 1 {
        ConfigRow::Grid(GridSource::AirDt)
    } else if i == 2 {
        ConfigRow::Wifi(WifiPref::On)
    } else {
        ConfigRow::Wifi(WifiPref::Off)
    }
}

fn config_at(i: usize) -> (r: ConfigRow)
    ensures
        r == config_row(i as int),
{
    if i == 0 {
        ConfigRow::Grid(GridSource::Ntp)
    } else if i == 1 {
        ConfigRow::Grid(GridSource::AirDt)
    } else if i == 2 {
        ConfigRow::Wifi(WifiPref::On)
    } else {
        ConfigRow::Wifi(WifiPref::Off)
    }
}

impl ConfigRow {
    pub open spec fn text(self) -> Seq<char> {
        match self {
            ConfigRow::Grid(GridSource::Ntp) => "TIME: NTP"@,
            ConfigRow::Grid(GridSource::AirDt) => "TIME: AIR DT"@,
            ConfigRow::Wifi(WifiPref::On) => "WIFI: ON"@,
            ConfigRow::Wifi(WifiPref::Off) => "WIFI: OFF"@,
        }
    }

    pub fn label(self) -> (r: &'static str)
        ensures
            r@ == self.text(),
    {
        match self {
            ConfigRow::Grid(src) => src.label(),
            ConfigRow::Wifi(pref) => pref.label(),
        }
    }
}

/// Rows of the demo page: one, the replay.
pub const DEMO_ROWS: usize = 1;

// ── State ───────────────────────────────────────────────────────────────────

/// The picker.
pub struct ModePicker {
    origin: (i32, i32),
    screen: (u32, u32),
    page: Page,
    open: bool,
    just_closed: bool,
    /// When the current press began.
    press_since: Option<u64>,
    /// The row that is selected, and since when.
    armed: Option<(usize, u64)>,
    /// What the finger is on.
    pressed: Option<Target>,
    /// The hold border is on screen.
    hold_drawn: bool,
    /// The overlay opened while the border was up.
    erase_hold: bool,
    /// The commit fired.
    committing: bool,
    /// What is on screen.
    drawn: Option<(Page, Option<usize>, usize)>,
    needs_draw: bool,
    presets: Vec<FreqPreset>,
    /// Which page of the presets is shown.
    freq_page: usize,
    /// The rig's dial as last rendered.
    rig_hz: Option<u32>,
}

pub struct PickerView {
    pub origin: (i32, i32),
    pub screen: (u32, u32),
    pub page: Page,
    pub open: bool,
    pub just_closed: bool,
    pub press_since: Option<u64>,
    pub armed: Option<(usize, u64)>,
    pub pressed: Option<Target>,
    pub hold_drawn: bool,
    pub erase_hold: bool,
    pub committing: bool,
    pub drawn: Option<(Page, Option<usize>, usize)>,
    pub needs_draw: bool,
    /// Label and dial of each preset.
    pub presets: Seq<(Seq<char>, u32)>,
    pub freq_page: usize,
    pub rig_hz: Option<u32>,
}

impl View for ModePicker {
    type V = PickerView;

    closed spec fn view(&self) -> PickerView {
        PickerView {
            origin: self.origin,
            screen: self.screen,
            page: self.page,
            open: self.open,
            just_closed: self.just_closed,
            press_since: self.press_since,
            armed: self.armed,
            pressed: self.pressed,
            hold_drawn: self.hold_drawn,
            erase_hold: self.erase_hold,
            committing: self.committing,
            drawn: self.drawn,
            needs_draw: self.needs_draw,
            presets: preset_rows(self.presets@),
            freq_page: self.freq_page,
            rig_hz: self.rig_hz,
        }
    }
}

/// The first preset of the page shown.
pub open spec fn freq_start(p: PickerView) -> int {
    let n = p.presets.len() as int;
    if n <= ROWS {
        0
    } else {
        p.freq_page as int % ((n + 2) / 3) * 3
    }
}

/// Presets on the page shown.
pub open spec fn freq_count(p: PickerView) -> int {
    let n = p.presets.len() as int;
    if n <= ROWS {
        n
    } else if n - freq_start(p) < 3 {
        n - freq_start(p)
    } else {
        3
    }
}

/// Rows of the page shown.
pub open spec fn rows_of(p: PickerView) -> int {
    match p.page {
        Page::Root => ROWS as int,
        Page::Mode => ROWS as int,
        Page::Config => ROWS as int,
        Page::Freq => freq_count(p) + if p.presets.len() > ROWS {
            1int
        } else {
            0int
        },
        Page::Demo => DEMO_ROWS as int,
    }
}

/// The label of a row.
pub open spec fn row_text(p: PickerView, i: int) -> Seq<char> {
    match p.page {
        Page::Root => root_row(i).1,
        Page::Mode => mode_row(i).1,
        Page::Config => config_row(i).text(),
        Page::Freq => if i < freq_count(p) {
            p.presets[freq_start(p) + i].0
        } else {
            "NEXT >"@
        },
        Page::Demo => "WAV REPLAY"@,
    }
}

/// What a touch lands on. The bands are contiguous.
pub open spec fn target_at(origin: (i32, i32), x: int, y: int, rows: int) -> Option<Target> {
    let dy = y - origin.1;
    if x < origin.0 - SLOP || x >= origin.0 + WIDTH + SLOP {
        None
    } else if dy < 0 || dy >= commit_top() + COMMIT_H + SLOP {
        None
    } else if dy >= commit_top() {
        Some(Target::Commit)
    } else if dy / PITCH as int >= rows {
        Some(Target::Dead)
    } else {
        Some(Target::Mode((dy / PITCH as int) as usize))
    }
}

fn hit(origin: (i32, i32), x: u16, y: u16, rows: usize) -> (r: Option<Target>)
    ensures
        r == target_at(origin, x as int, y as int, rows as int),
{
    let px: i64 = x as i64;
    let left: i64 = origin.0 as i64;
    if px < left - SLOP as i64 || px >= left + WIDTH as i64 + SLOP as i64 {
        return None;
    }
    let dy: i64 = y as i64 - origin.1 as i64;
    let top: i64 = ROWS as i64 * PITCH as i64;
    if dy < 0 || dy >= top + COMMIT_H as i64 + SLOP as i64 {
        return None;
    }
    if dy >= top {
        return Some(Target::Commit);
    }
    let idx: usize = (dy as u32 / PITCH as u32) as usize;
    if idx < rows {
        Some(Target::Mode(idx))
    } else {
        Some(Target::Dead)
    }
}

// ── Touch ───────────────────────────────────────────────────────────────────

/// Milliseconds since, none if the clock went back.
pub open spec fn since_ms(now: u64, then: u64) -> int {
    if now > then {
        now - then
    } else {
        0
    }
}

fn ms_since(now: u64, then: u64) -> (r: u64)
    ensures
        r == since_ms(now, then),
{
    if now > then {
        now - then
    } else {
        0
    }
}

/// The picker dismissed. The next time it opens at the root.
pub open spec fn closed_picker(p: PickerView) -> PickerView {
    PickerView {
        open: false,
        page: Page::Root,
        armed: None,
        pressed: None,
        committing: false,
        drawn: None,
        needs_draw: false,
        just_closed: true,
        ..p
    }
}

/// The first preset with the dial; the number of presets if there is none.
pub open spec fn preset_at(presets: Seq<(Seq<char>, u32)>, hz: u32) -> int
    decreases presets.len(),
{
    if presets.len() == 0 || presets[0].1 == hz {
        0
    } else {
        1 + preset_at(presets.skip(1), hz)
    }
}

/// The page of presets that holds the rig's dial, or the first.
pub open spec fn opening_page(p: PickerView) -> int {
    match p.rig_hz {
        Some(hz) => if p.presets.len() > ROWS && preset_at(p.presets, hz) < p.presets.len() {
            preset_at(p.presets, hz) / 3
        } else {
            0
        },
        None => 0,
    }
}

/// A row was pressed: the root opens a page, NEXT turns it, and any other
/// row is selected.
pub open spec fn row_pressed(p: PickerView, i: usize, now: u64) -> PickerView {
    if p.page == Page::Root {
        let q = PickerView {
            page: root_row(i as int).0,
            armed: None,
            needs_draw: true,
            ..p
        };
        if q.page == Page::Freq {
            PickerView { freq_page: opening_page(p) as usize, ..q }
        } else {
            q
        }
    } else if p.page == Page::Freq && i >= freq_count(p) {
        PickerView {
            freq_page: (p.freq_page + 1) as usize,
            armed: None,
            needs_draw: true,
            ..p
        }
    } else {
        PickerView { armed: Some((i, now)), needs_draw: true, ..p }
    }
}

/// What a selected row stands for, on a page whose commit restarts.
pub open spec fn row_commit(page: Page, i: int) -> Commit {
    match page {
        Page::Mode => Commit::Mode(mode_row(i).0),
        Page::Config => match config_row(i) {
            ConfigRow::Grid(src) => Commit::Grid(src),
            ConfigRow::Wifi(pref) => Commit::Wifi(pref),
        },
        _ => Commit::Mode(BootMode::Decode),
    }
}

/// The bar was pressed: a dial goes out and the picker closes; anything else
/// that is selected is committed; with nothing selected nothing happens.
pub open spec fn bar_pressed(p: PickerView) -> (PickerView, Option<Commit>) {
    if p.page == Page::Root || p.armed is None {
        (p, None)
    } else if p.page == Page::Freq {
        let i = (p.armed->0).0;
        (
            closed_picker(p),
            if i < freq_count(p) {
                Some(Commit::Freq(p.presets[freq_start(p) + i].1))
            } else {
                None
            },
        )
    } else {
        (
            PickerView { committing: true, needs_draw: true, ..p },
            Some(row_commit(p.page, (p.armed->0).0 as int)),
        )
    }
}

/// A press on the open picker.
pub open spec fn pressed_on(p: PickerView, t: Option<Target>, now: u64) -> (
    PickerView,
    Option<Commit>,
) {
    let q = if p.pressed != t {
        PickerView { pressed: t, needs_draw: true, ..p }
    } else {
        p
    };
    match t {
        Some(Target::Mode(i)) => (row_pressed(q, i, now), None),
        Some(Target::Commit) => bar_pressed(q),
        Some(Target::Dead) => (q, None),
        None => (closed_picker(q), None),
    }
}

/// A selection left alone lapses.
pub open spec fn lapsed(p: PickerView, now: u64) -> PickerView {
    if p.armed is Some && since_ms(now, (p.armed->0).1) > ARM_MS {
        PickerView { armed: None, needs_draw: true, ..p }
    } else {
        p
    }
}

/// One frame of touch.
pub open spec fn updated(p: PickerView, pressed: bool, x: u16, y: u16, now: u64) -> (
    PickerView,
    Option<Commit>,
) {
    if !pressed {
        let q = PickerView {
            press_since: None,
            pressed: None,
            needs_draw: p.needs_draw || p.pressed is Some,
            ..p
        };
        (lapsed(q, now), None)
    } else if p.press_since is None {
        let q = PickerView { press_since: Some(now), ..p };
        if p.open {
            let (r, c) = pressed_on(q, target_at(p.origin, x as int, y as int, rows_of(p)), now);
            if c is Some {
                (r, c)
            } else {
                (lapsed(r, now), None)
            }
        } else {
            (lapsed(q, now), None)
        }
    } else if !p.open && since_ms(now, p.press_since->0) >= OPEN_MS {
        (
            lapsed(
                PickerView {
                    open: true,
                    armed: None,
                    needs_draw: true,
                    erase_hold: p.hold_drawn,
                    hold_drawn: false,
                    ..p
                },
                now,
            ),
            None,
        )
    } else {
        (lapsed(p, now), None)
    }
}

/// A selection stands only for a row, and never on the root.
pub open spec fn picker_ok(p: PickerView) -> bool {
    match p.armed {
        Some((i, at)) => match p.page {
            Page::Root => false,
            Page::Mode => i < ROWS,
            Page::Config => i < ROWS,
            Page::Freq => true,
            Page::Demo => i < DEMO_ROWS,
        },
        None => true,
    }
}

proof fn lemma_preset_at(presets: Seq<(Seq<char>, u32)>, hz: u32, k: int)
    requires
        0 <= k <= presets.len(),
        k < presets.len() ==> presets[k].1 == hz,
        forall|i: int| 0 <= i < k ==> (#[trigger] presets[i]).1 != hz,
    ensures
        preset_at(presets, hz) == k,
    decreases presets.len(),
{
    if k > 0 {
        let t = presets.skip(1);
        assert(presets[0].1 != hz);
        assert forall|i: int| 0 <= i < k - 1 implies (#[trigger] t[i]).1 != hz by {
            assert(presets[i + 1] == t[i]);
        }
        if k < presets.len() {
            assert(t[k - 1] == presets[k]);
        }
        lemma_preset_at(t, hz, k - 1);
    }
}

impl ModePicker {
    pub fn new(origin: (i32, i32), screen: (u32, u32)) -> (r: Self)
        ensures
            r@ == (PickerView {
                origin,
                screen,
                page: Page::Root,
                open: false,
                just_closed: false,
                press_since: None,
                armed: None,
                pressed: None,
                hold_drawn: false,
                erase_hold: false,
                committing: false,
                drawn: None,
                needs_draw: false,
                presets: Seq::empty(),
                freq_page: 0,
                rig_hz: None,
            }),
            picker_ok(r@),
    {
        let r = ModePicker {
            origin,
            screen,
            page: Page::Root,
            open: false,
            just_closed: false,
            press_since: None,
            armed: None,
            pressed: None,
            hold_drawn: false,
            erase_hold: false,
            committing: false,
            drawn: None,
            needs_draw: false,
            presets: Vec::new(),
            freq_page: 0,
            rig_hz: None,
        };
        assert(r@.presets =~= Seq::<(Seq<char>, u32)>::empty());
        r
    }

    /// The presets of the running receiver.
    pub fn set_freq_presets(&mut self, presets: Vec<FreqPreset>)
        ensures
            final(self)@ == (PickerView {
                presets: preset_rows(presets@),
                freq_page: 0,
                ..old(self)@
            }),
            picker_ok(old(self)@) ==> picker_ok(final(self)@),
    {
        self.presets = presets;
        self.freq_page = 0;
    }

    pub fn is_open(&self) -> (r: bool)
        ensures
            r == self@.open,
    {
        self.open
    }

    /// True once after the picker closes.
    pub fn take_just_closed(&mut self) -> (r: bool)
        ensures
            r == old(self)@.just_closed,
            final(self)@ == (PickerView { just_closed: false, ..old(self)@ }),
    {
        let r = self.just_closed;
        self.just_closed = false;
        r
    }

    /// The presets on the page shown: where they start, and how many.
    fn freq_view(&self) -> (r: (usize, usize))
        ensures
            r.0 == freq_start(self@),
            r.1 == freq_count(self@),
            r.0 + r.1 <= self@.presets.len() <= usize::MAX,
            self@.presets.len() == self.presets@.len(),
            r.1 <= ROWS,
            self@.presets.len() > ROWS ==> r.1 <= 3,
    {
        let len: usize = self.presets.len();
        let v = page(len, ROWS, self.freq_page);
        proof {
            let n = len as int;
            if n > ROWS {
                let m = (n + 2) / 3;
                assert(m > 0);
                assert(crate::station::freq_presets::pages(n, 3) == m);
                let k = self.freq_page as int % m;
                assert(0 <= k < m);
                assert(k * 3 < n);
            }
        }
        (v.start, v.count)
    }

    /// Rows of the page shown.
    fn rows(&self) -> (r: usize)
        ensures
            r == rows_of(self@),
            r <= ROWS,
    {
        match self.page {
            Page::Root | Page::Mode | Page::Config => ROWS,
            Page::Freq => {
                let (_start, count) = self.freq_view();
                if self.presets.len() > ROWS {
                    count + 1
                } else {
                    count
                }
            },
            Page::Demo => DEMO_ROWS,
        }
    }

    /// The label of a row.
    fn row_label(&self, i: usize) -> (r: &'static str)
        ensures
            r@ == row_text(self@, i as int),
    {
        match self.page {
            Page::Root => root_at(i).1,
            Page::Mode => mode_at(i).1,
            Page::Config => config_at(i).label(),
            Page::Freq => {
                let (start, count) = self.freq_view();
                if i < count {
                    self.presets[start + i].label
                } else {
                    "NEXT >"
                }
            },
            Page::Demo => "WAV REPLAY",
        }
    }

    fn close(&mut self)
        ensures
            final(self)@ == closed_picker(old(self)@),
    {
        self.open = false;
        self.page = Page::Root;
        self.armed = None;
        self.pressed = None;
        self.committing = false;
        self.drawn = None;
        self.needs_draw = false;
        self.just_closed = true;
    }

    fn find_preset(&self, hz: u32) -> (r: Option<usize>)
        ensures
            match r {
                Some(i) => i == preset_at(self@.presets, hz) && i < self@.presets.len(),
                None => preset_at(self@.presets, hz) == self@.presets.len(),
            },
    {
        let ghost t = self@.presets;
        let mut i: usize = 0;
        while i < self.presets.len()
            invariant
                i <= self.presets@.len(),
                t == preset_rows(self.presets@),
                forall|k: int| 0 <= k < i ==> (#[trigger] t[k]).1 != hz,
            decreases self.presets@.len() - i,
        {
            assert(t[i as int].1 == self.presets@[i as int].hz);
            if self.presets[i].hz == hz {
                proof {
                    lemma_preset_at(t, hz, i as int);
                }
                return Some(i);
            }
            i += 1;
        }
        proof {
            lemma_preset_at(t, hz, i as int);
        }
        None
    }

    fn row_press(&mut self, i: usize, now: u64)
        requires
            old(self)@.freq_page < usize::MAX,
            i < rows_of(old(self)@),
        ensures
            final(self)@ == row_pressed(old(self)@, i, now),
            picker_ok(final(self)@),
    {
        let count: usize = self.freq_view().1;
        if self.page == Page::Root {
            let opening: usize = match self.rig_hz {
                Some(hz) => match self.find_preset(hz) {
                    Some(k) => {
                        if self.presets.len() > ROWS {
                            k / 3
                        } else {
                            0
                        }
                    },
                    None => 0,
                },
                None => 0,
            };
            assert(opening == opening_page(self@));
            self.page = root_at(i).0;
            self.armed = None;
            self.needs_draw = true;
            if self.page == Page::Freq {
                self.freq_page = opening;
            }
        } else if self.page == Page::Freq && i >= count {
            self.freq_page = self.freq_page + 1;
            self.armed = None;
            self.needs_draw = true;
        } else {
            self.armed = Some((i, now));
            self.needs_draw = true;
        }
    }

    fn bar_press(&mut self) -> (r: Option<Commit>)
        requires
            picker_ok(old(self)@),
        ensures
            (final(self)@, r) == bar_pressed(old(self)@),
            picker_ok(final(self)@),
    {
        if self.page == Page::Root {
            return None;
        }
        match self.armed {
            Some((i, _at)) => {
                if self.page == Page::Freq {
                    let (start, count) = self.freq_view();
                    let hz: Option<u32> = if i < count {
                        Some(self.presets[start + i].hz)
                    } else {
                        None
                    };
                    self.close();
                    match hz {
                        Some(hz) => Some(Commit::Freq(hz)),
                        None => None,
                    }
                } else {
                    self.committing = true;
                    self.needs_draw = true;
                    Some(
                        match self.page {
                            Page::Mode => Commit::Mode(mode_at(i).0),
                            Page::Config => match config_at(i) {
                                ConfigRow::Grid(src) => Commit::Grid(src),
                                ConfigRow::Wifi(pref) => Commit::Wifi(pref),
                            },
                            _ => Commit::Mode(BootMode::Decode),
                        },
                    )
                }
            },
            None => None,
        }
    }

    /// A press on the open picker.
    fn press(&mut self, x: u16, y: u16, now: u64) -> (r: Option<Commit>)
        requires
            picker_ok(old(self)@),
            old(self)@.freq_page < usize::MAX,
        ensures
            (final(self)@, r) == pressed_on(
                old(self)@,
                target_at(old(self)@.origin, x as int, y as int, rows_of(old(self)@)),
                now,
            ),
            picker_ok(final(self)@),
    {
        let rows: usize = self.rows();
        let t = hit(self.origin, x, y, rows);
        if !same_target(self.pressed, t) {
            self.pressed = t;
            self.needs_draw = true;
        }
        match t {
            Some(Target::Mode(i)) => {
                self.row_press(i, now);
                None
            },
            Some(Target::Commit) => self.bar_press(),
            Some(Target::Dead) => None,
            None => {
                self.close();
                None
            },
        }
    }

    fn lapse(&mut self, now: u64)
        ensures
            final(self)@ == lapsed(old(self)@, now),
            picker_ok(old(self)@) ==> picker_ok(final(self)@),
    {
        if let Some((_i, at)) = self.armed {
            if ms_since(now, at) > ARM_MS {
                self.armed = None;
                self.needs_draw = true;
            }
        }
    }

    /// Feed the touch state once per frame, at `now` milliseconds. Something
    /// comes back when the commit bar is pressed with a selection standing.
    /// `x` and `y` count only while `pressed`.
    pub fn update(&mut self, pressed: bool, x: u16, y: u16, now: u64) -> (r: Option<Commit>)
        requires
            picker_ok(old(self)@),
            old(self)@.freq_page < usize::MAX,
        ensures
            (final(self)@, r) == updated(old(self)@, pressed, x, y, now),
            picker_ok(final(self)@),
    {
        if !pressed {
            self.press_since = None;
            if self.pressed.is_some() {
                self.pressed = None;
                self.needs_draw = true;
            }
        } else if self.press_since.is_none() {
            self.press_since = Some(now);
            if self.open {
                let c = self.press(x, y, now);
                if c.is_some() {
                    return c;
                }
            }
        } else if !self.open {
            if let Some(since) = self.press_since {
                if ms_since(now, since) >= OPEN_MS {
                    self.open = true;
                    self.armed = None;
                    self.needs_draw = true;
                    self.erase_hold = self.hold_drawn;
                    self.hold_drawn = false;
                }
            }
        }
        self.lapse(now);
        None
    }
}

fn same_target(a: Option<Target>, b: Option<Target>) -> (r: bool)
    ensures
        r == (a == b),
{
    match (a, b) {
        (Some(x), Some(y)) => x == y,
        (None, None) => true,
        _ => false,
    }
}

// ── Drawing ─────────────────────────────────────────────────────────────────

#[derive(Debug, Clone, Copy, PartialEq, Eq, Structural)]
pub enum Colour {
    Black,
    White,
    /// The standing selection.
    Green,
    /// The finger.
    Orange,
    Gray,
    /// A bar that is ready.
    DarkGreen,
}

/// Something to draw.
#[derive(Debug, PartialEq, Eq)]
pub enum Draw {
    Fill { x: i32, y: i32, w: u32, h: u32, colour: Colour },
    /// Text with its top left corner at a point.
    Label { x: i32, y: i32, text: String, fg: Colour, bg: Colour },
}

pub enum DrawView {
    Fill { x: int, y: int, w: int, h: int, colour: Colour },
    Label { x: int, y: int, text: Seq<char>, fg: Colour, bg: Colour },
}

impl View for Draw {
    type V = DrawView;

    open spec fn view(&self) -> DrawView {
        match self {
            Draw::Fill { x, y, w, h, colour } => DrawView::Fill {
                x: *x as int,
                y: *y as int,
                w: *w as int,
                h: *h as int,
                colour: *colour,
            },
            Draw::Label { x, y, text, fg, bg } => DrawView::Label {
                x: *x as int,
                y: *y as int,
                text: text@,
                fg: *fg,
                bg: *bg,
            },
        }
    }
}

pub open spec fn draws(v: Seq<Draw>) -> Seq<DrawView> {
    v.map_values(|d: Draw| d@)
}

/// What this boot is running.
#[derive(Debug, Clone, Copy, PartialEq, Eq, Structural)]
pub struct Standing {
    pub mode: BootMode,
    pub grid: GridSource,
    pub wifi: WifiPref,
}

/// What a frame drew.
#[derive(Debug, Clone, Copy, PartialEq, Eq, Structural)]
pub enum Drawn {
    /// Nothing that has to be remembered.
    Nothing,
    /// The hold border, or its absence.
    Hold,
    /// The whole overlay.
    Overlay,
}

/// The widget and the panel have room.
pub open spec fn fits(p: PickerView) -> bool {
    &&& -0x4000_0000 <= p.origin.0 <= 0x4000_0000
    &&& -0x4000_0000 <= p.origin.1 <= 0x4000_0000
    &&& HOLD_BORDER_W <= p.screen.0 <= i32::MAX
    &&& HOLD_BORDER_W <= p.screen.1 <= i32::MAX
}

/// A border round the panel: four bars.
pub open spec fn border(screen: (u32, u32), colour: Colour) -> Seq<DrawView> {
    let w = screen.0 as int;
    let h = screen.1 as int;
    let b = HOLD_BORDER_W as int;
    seq![
        DrawView::Fill { x: 0, y: 0, w, h: b, colour },
        DrawView::Fill { x: 0, y: h - b, w, h: b, colour },
        DrawView::Fill { x: 0, y: 0, w: b, h, colour },
        DrawView::Fill { x: w - b, y: 0, w: b, h, colour },
    ]
}

/// The row names what this boot is already running.
pub open spec fn is_current(p: PickerView, i: int, at: Standing) -> bool {
    match p.page {
        Page::Root => false,
        Page::Mode => mode_row(i).0 == at.mode,
        Page::Demo => at.mode == BootMode::Decode,
        Page::Config => match config_row(i) {
            ConfigRow::Grid(src) => src == at.grid,
            ConfigRow::Wifi(pref) => pref == at.wifi,
        },
        Page::Freq => i < freq_count(p) && p.rig_hz == Some(p.presets[freq_start(p) + i].1),
    }
}

/// The row that is selected.
pub open spec fn armed_row(p: PickerView) -> Option<usize> {
    match p.armed {
        Some((i, at)) => Some(i),
        None => None,
    }
}

/// A row's colours: the finger, then the selection, then neither.
pub open spec fn row_colours(p: PickerView, i: int) -> (Colour, Colour) {
    if p.pressed == Some(Target::Mode(i as usize)) {
        (Colour::Orange, Colour::Black)
    } else if armed_row(p) == Some(i as usize) {
        (Colour::Green, Colour::Black)
    } else {
        (Colour::Black, Colour::White)
    }
}

/// A row: painted out past the page's end, and else its label, with a star
/// where this boot already is.
pub open spec fn row_draws(p: PickerView, i: int, at: Standing) -> Seq<DrawView> {
    let top = p.origin.1 + i * PITCH;
    let x = p.origin.0 as int;
    if i >= rows_of(p) {
        seq![
            DrawView::Fill {
                x,
                y: top,
                w: WIDTH as int,
                h: BUTTON_H as int,
                colour: Colour::Black,
            },
        ]
    } else {
        let (bg, fg) = row_colours(p, i);
        let d = seq![
            DrawView::Fill { x, y: top, w: WIDTH as int, h: BUTTON_H as int, colour: bg },
            DrawView::Label { x: x + 10, y: top + 15, text: row_text(p, i), fg, bg },
        ];
        if is_current(p, i, at) {
            d.push(DrawView::Label { x: x + WIDTH - 14, y: top + 15, text: "*"@, fg, bg })
        } else {
            d
        }
    }
}

pub open spec fn rows_draws(p: PickerView, n: int, at: Standing) -> Seq<DrawView>
    decreases n,
{
    if n <= 0 {
        Seq::empty()
    } else {
        rows_draws(p, n - 1, at) + row_draws(p, n - 1, at)
    }
}

/// The bar's colours.
pub open spec fn bar_colours(p: PickerView) -> (Colour, Colour) {
    if p.committing {
        (Colour::Green, Colour::Black)
    } else if p.pressed == Some(Target::Commit) {
        (Colour::Orange, Colour::Black)
    } else if p.armed is Some {
        (Colour::DarkGreen, Colour::White)
    } else {
        (Colour::Black, Colour::Gray)
    }
}

/// A text with another behind it if it fits the bar's line of 32 bytes.
pub open spec fn on_bar(line: Seq<char>, more: Seq<char>) -> Seq<char> {
    if encode_utf8(line).len() + encode_utf8(more).len() <= 32 {
        line + more
    } else {
        line
    }
}

/// A text with others behind it, up to the first that does not fit.
pub open spec fn on_bar_all(line: Seq<char>, more: Seq<Seq<char>>) -> Seq<char>
    decreases more.len(),
{
    if more.len() == 0 || encode_utf8(line).len() + encode_utf8(more[0]).len() > 32 {
        line
    } else {
        on_bar_all(line + more[0], more.skip(1))
    }
}

/// The number of the page of presets, and how many there are.
pub open spec fn freq_number(p: PickerView) -> (int, int) {
    let n = p.presets.len() as int;
    if n <= ROWS {
        (1, 1)
    } else {
        (p.freq_page as int % ((n + 2) / 3) + 1, (n + 2) / 3)
    }
}

/// The bar names what it will do.
pub open spec fn bar_text(p: PickerView) -> Seq<char> {
    let e = Seq::<char>::empty();
    if p.page == Page::Root {
        on_bar(e, "pick a page above"@)
    } else if p.armed is Some {
        on_bar(
            on_bar(
                e,
                if p.committing {
                    "APPLYING "@
                } else {
                    "APPLY "@
                },
            ),
            row_text(p, (p.armed->0).0 as int),
        )
    } else if p.page == Page::Config {
        on_bar(e, "pick a setting above"@)
    } else if p.page == Page::Freq {
        if p.presets.len() == 0 {
            on_bar(e, "no presets for this mode"@)
        } else if freq_number(p).1 > 1 {
            on_bar_all(
                e,
                seq![
                    "pick a dial  "@,
                    dec(freq_number(p).0 as nat),
                    "/"@,
                    dec(freq_number(p).1 as nat),
                ],
            )
        } else {
            on_bar(e, "pick a dial above"@)
        }
    } else {
        on_bar(e, "pick a mode above"@)
    }
}

pub open spec fn bar_draws(p: PickerView) -> Seq<DrawView> {
    let (bg, fg) = bar_colours(p);
    let top = p.origin.1 + commit_top();
    seq![
        DrawView::Fill {
            x: p.origin.0 as int,
            y: top,
            w: WIDTH as int,
            h: COMMIT_H as int,
            colour: bg,
        },
        DrawView::Label { x: p.origin.0 + 10, y: top + 15, text: bar_text(p), fg, bg },
    ]
}

/// The overlay on screen is the one that would be drawn.
pub open spec fn up_to_date(p: PickerView) -> bool {
    !p.needs_draw && p.drawn == Some((p.page, armed_row(p), p.freq_page))
}

/// What a frame draws.
pub open spec fn frame_draws(p: PickerView, at: Standing) -> Seq<DrawView> {
    let down = p.press_since is Some;
    if !p.open {
        if down == p.hold_drawn {
            Seq::empty()
        } else {
            border(
                p.screen,
                if down {
                    Colour::Orange
                } else {
                    Colour::Black
                },
            )
        }
    } else {
        let erase = if p.erase_hold {
            border(p.screen, Colour::Black)
        } else {
            Seq::empty()
        };
        if up_to_date(p) {
            erase
        } else {
            erase + rows_draws(p, ROWS as int, at) + bar_draws(p)
        }
    }
}

/// What a frame draws, in a word.
pub open spec fn frame_kind(p: PickerView) -> Drawn {
    if !p.open {
        if (p.press_since is Some) == p.hold_drawn {
            Drawn::Nothing
        } else {
            Drawn::Hold
        }
    } else if up_to_date(p) {
        Drawn::Nothing
    } else {
        Drawn::Overlay
    }
}

/// The picker once a frame is on screen.
pub open spec fn after_frame(p: PickerView, kind: Drawn) -> PickerView {
    match kind {
        Drawn::Nothing => p,
        Drawn::Hold => PickerView {
            hold_drawn: p.press_since is Some,
            just_closed: p.just_closed || p.press_since is None,
            ..p
        },
        Drawn::Overlay => PickerView {
            drawn: Some((p.page, armed_row(p), p.freq_page)),
            needs_draw: false,
            ..p
        },
    }
}

fn add_border(out: &mut Vec<Draw>, screen: (u32, u32), colour: Colour)
    requires
        HOLD_BORDER_W <= screen.0 <= i32::MAX,
        HOLD_BORDER_W <= screen.1 <= i32::MAX,
    ensures
        draws(final(out)@) == draws(old(out)@) + border(screen, colour),
{
    let (w, h) = screen;
    let b: u32 = HOLD_BORDER_W;
    let ghost before = out@;
    out.push(Draw::Fill { x: 0, y: 0, w, h: b, colour });
    out.push(Draw::Fill { x: 0, y: (h - b) as i32, w, h: b, colour });
    out.push(Draw::Fill { x: 0, y: 0, w: b, h, colour });
    out.push(Draw::Fill { x: (w - b) as i32, y: 0, w: b, h, colour });
    assert(draws(out@) =~= draws(before) + border(screen, colour));
}

fn put_on_bar(line: &mut heapless::String<32>, more: &str) -> (r: bool)
    ensures
        text32(*final(line)) == on_bar(text32(*old(line)), more@),
        r == (encode_utf8(text32(*old(line))).len() + encode_utf8(more@).len() <= 32),
{
    text_push_str(line, more)
}

impl ModePicker {
    fn is_current_row(&self, i: usize, at: Standing) -> (r: bool)
        ensures
            r == is_current(self@, i as int, at),
    {
        match self.page {
            Page::Root => false,
            Page::Mode => mode_at(i).0 == at.mode,
            Page::Demo => at.mode == BootMode::Decode,
            Page::Config => match config_at(i) {
                ConfigRow::Grid(src) => src == at.grid,
                ConfigRow::Wifi(pref) => pref == at.wifi,
            },
            Page::Freq => {
                let (start, count) = self.freq_view();
                match self.rig_hz {
                    Some(hz) => i < count && self.presets[start + i].hz == hz,
                    None => false,
                }
            },
        }
    }

    fn colours_of_row(&self, i: usize) -> (r: (Colour, Colour))
        ensures
            r == row_colours(self@, i as int),
    {
        let under = match self.pressed {
            Some(Target::Mode(k)) => k == i,
            _ => false,
        };
        let selected = match self.armed {
            Some((k, _at)) => k == i,
            None => false,
        };
        if under {
            (Colour::Orange, Colour::Black)
        } else if selected {
            (Colour::Green, Colour::Black)
        } else {
            (Colour::Black, Colour::White)
        }
    }

    fn add_row(&self, out: &mut Vec<Draw>, i: usize, at: Standing)
        requires
            fits(self@),
            i < ROWS,
        ensures
            draws(final(out)@) == draws(old(out)@) + row_draws(self@, i as int, at),
    {
        let ghost before = out@;
        let x: i32 = self.origin.0;
        let top: i32 = self.origin.1 + i as i32 * PITCH;
        if i >= self.rows() {
            out.push(Draw::Fill { x, y: top, w: WIDTH, h: BUTTON_H, colour: Colour::Black });
            assert(draws(out@) =~= draws(before) + row_draws(self@, i as int, at));
            return;
        }
        let (bg, fg) = self.colours_of_row(i);
        let label = self.row_label(i).to_owned();
        let ghost text = label@;
        out.push(Draw::Fill { x, y: top, w: WIDTH, h: BUTTON_H, colour: bg });
        out.push(Draw::Label { x: x + 10, y: top + 15, text: label, fg, bg });
        if self.is_current_row(i, at) {
            let star = "*".to_owned();
            out.push(Draw::Label { x: x + WIDTH as i32 - 14, y: top + 15, text: star, fg, bg });
        }
        assert(draws(out@) =~= draws(before) + row_draws(self@, i as int, at));
    }

    /// The commit bar's line.
    fn bar_line(&self) -> (r: heapless::String<32>)
        ensures
            text32(r) == bar_text(self@),
    {
        let mut line = text32_new();
        if self.page == Page::Root {
            let _ok = put_on_bar(&mut line, "pick a page above");
            return line;
        }
        if let Some((i, _at)) = self.armed {
            let _head = put_on_bar(
                &mut line,
                if self.committing {
                    "APPLYING "
                } else {
                    "APPLY "
                },
            );
            let _what = put_on_bar(&mut line, self.row_label(i));
            return line;
        }
        match self.page {
            Page::Config => {
                let _ok = put_on_bar(&mut line, "pick a setting above");
            },
            Page::Freq => {
                let len: usize = self.presets.len();
                let v = page(len, ROWS, self.freq_page);
                proof {
                    let n = len as int;
                    if n > ROWS {
                        assert(crate::station::freq_presets::pages(n, 3) == (n + 2) / 3);
                    }
                }
                if len == 0 {
                    let _ok = put_on_bar(&mut line, "no presets for this mode");
                } else if v.of > 1 {
                    let number = string_of(dec_of(v.number as u128).as_slice());
                    let of = string_of(dec_of(v.of as u128).as_slice());
                    self.put_pages(&mut line, number.as_str(), of.as_str());
                } else {
                    let _ok = put_on_bar(&mut line, "pick a dial above");
                }
            },
            _ => {
                let _ok = put_on_bar(&mut line, "pick a mode above");
            },
        }
        line
    }

    fn put_pages(&self, line: &mut heapless::String<32>, number: &str, of: &str)
        ensures
            text32(*final(line)) == on_bar_all(
                text32(*old(line)),
                seq!["pick a dial  "@, number@, "/"@, of@],
            ),
    {
        let ghost l0 = text32(*line);
        let ghost parts = seq!["pick a dial  "@, number@, "/"@, of@];
        proof {
            reveal_with_fuel(on_bar_all, 5);
            assert(parts.skip(1) =~= seq![number@, "/"@, of@]);
            assert(parts.skip(1).skip(1) =~= seq!["/"@, of@]);
            assert(parts.skip(1).skip(1).skip(1) =~= seq![of@]);
            assert(parts.skip(1).skip(1).skip(1).skip(1) =~= Seq::<Seq<char>>::empty());
        }
        if !put_on_bar(line, "pick a dial  ") {
            return;
        }
        if !put_on_bar(line, number) {
            return;
        }
        if !put_on_bar(line, "/") {
            return;
        }
        let _last = put_on_bar(line, of);
    }

    fn add_bar(&self, out: &mut Vec<Draw>)
        requires
            fits(self@),
        ensures
            draws(final(out)@) == draws(old(out)@) + bar_draws(self@),
    {
        let ghost before = out@;
        let x: i32 = self.origin.0;
        let top: i32 = self.origin.1 + ROWS as i32 * PITCH;
        let on_commit = match self.pressed {
            Some(Target::Commit) => true,
            _ => false,
        };
        let (bg, fg) = if self.committing {
            (Colour::Green, Colour::Black)
        } else if on_commit {
            (Colour::Orange, Colour::Black)
        } else if self.armed.is_some() {
            (Colour::DarkGreen, Colour::White)
        } else {
            (Colour::Black, Colour::Gray)
        };
        let line = self.bar_line();
        let text = text_str(&line).to_owned();
        out.push(Draw::Fill { x, y: top, w: WIDTH, h: COMMIT_H, colour: bg });
        out.push(Draw::Label { x: x + 10, y: top + 15, text, fg, bg });
        assert(draws(out@) =~= draws(before) + bar_draws(self@));
    }

    fn overlay_current(&self) -> (r: bool)
        ensures
            r == up_to_date(self@),
    {
        if self.needs_draw {
            return false;
        }
        match self.drawn {
            Some((p, row, f)) => {
                let same_row = match (row, self.armed) {
                    (Some(a), Some((b, _at))) => a == b,
                    (None, None) => true,
                    _ => false,
                };
                p == self.page && same_row && f == self.freq_page
            },
            None => false,
        }
    }

    /// What to draw this frame: the hold border while the picker is closed,
    /// the overlay while it is open, and only what changed. `at` is what
    /// this boot is running and `rig_hz` the rig's dial, for the stars.
    /// [`ModePicker::frame_drawn`] follows once it is on screen.
    pub fn render(&mut self, at: Standing, rig_hz: Option<u32>) -> (r: (Vec<Draw>, Drawn))
        requires
            fits(old(self)@),
            picker_ok(old(self)@),
        ensures
            ({
                let p = PickerView { rig_hz, ..old(self)@ };
                &&& draws(r.0@) == frame_draws(p, at)
                &&& r.1 == frame_kind(p)
                &&& final(self)@ == (PickerView { erase_hold: p.erase_hold && !p.open, ..p })
            }),
            picker_ok(final(self)@),
    {
        self.rig_hz = rig_hz;
        let ghost p = self@;
        let mut out: Vec<Draw> = Vec::new();
        assert(draws(out@) =~= Seq::<DrawView>::empty());
        if !self.open {
            let down = self.press_since.is_some();
            if down == self.hold_drawn {
                return (out, Drawn::Nothing);
            }
            let colour = if down {
                Colour::Orange
            } else {
                Colour::Black
            };
            add_border(&mut out, self.screen, colour);
            assert(draws(out@) =~= Seq::<DrawView>::empty() + border(p.screen, colour));
            assert(draws(out@) =~= border(p.screen, colour));
            return (out, Drawn::Hold);
        }
        if self.erase_hold {
            self.erase_hold = false;
            add_border(&mut out, self.screen, Colour::Black);
            assert(draws(out@) =~= Seq::<DrawView>::empty() + border(p.screen, Colour::Black));
            assert(draws(out@) =~= border(p.screen, Colour::Black));
        }
        let ghost erase = draws(out@);
        if self.overlay_current() {
            return (out, Drawn::Nothing);
        }
        let mut i: usize = 0;
        assert(erase + rows_draws(self@, 0, at) =~= erase);
        while i < ROWS
            invariant
                i <= ROWS,
                fits(self@),
                draws(out@) == erase + rows_draws(self@, i as int, at),
            decreases ROWS - i,
        {
            self.add_row(&mut out, i, at);
            assert(draws(out@) =~= erase + rows_draws(self@, i + 1, at));
            i += 1;
        }
        self.add_bar(&mut out);
        proof {
            lemma_rows_same(p, self@, ROWS as int, at);
        }
        (out, Drawn::Overlay)
    }

    /// A frame is on screen.
    pub fn frame_drawn(&mut self, kind: Drawn)
        ensures
            final(self)@ == after_frame(old(self)@, kind),
    {
        match kind {
            Drawn::Nothing => {},
            Drawn::Hold => {
                let down = self.press_since.is_some();
                self.hold_drawn = down;
                if !down {
                    self.just_closed = true;
                }
            },
            Drawn::Overlay => {
                let row: Option<usize> = match self.armed {
                    Some((i, _at)) => Some(i),
                    None => None,
                };
                self.drawn = Some((self.page, row, self.freq_page));
                self.needs_draw = false;
            },
        }
    }
}

/// The rows do not depend on whether the border is to be erased.
proof fn lemma_rows_same(p: PickerView, q: PickerView, n: int, at: Standing)
    requires
        q == (PickerView { erase_hold: q.erase_hold, ..p }),
    ensures
        rows_draws(p, n, at) == rows_draws(q, n, at),
        bar_draws(p) == bar_draws(q),
    decreases n,
{
    if n > 0 {
        lemma_rows_same(p, q, n - 1, at);
    }
}

// ── Laws ────────────────────────────────────────────────────────────────────

/// Nothing is committed but by a fresh press on the bar of an open picker
/// with a selection standing, and what is committed is the selected row.
pub proof fn law_a_commit_needs_a_selection(
    p: PickerView,
    pressed: bool,
    x: u16,
    y: u16,
    now: u64,
)
    requires
        updated(p, pressed, x, y, now).1 is Some,
    ensures
        p.open,
        pressed && p.press_since is None,
        target_at(p.origin, x as int, y as int, rows_of(p)) == Some(Target::Commit),
        p.armed is Some,
        p.page != Page::Root,
        ({
            let i = (p.armed->0).0 as int;
            let c = updated(p, pressed, x, y, now).1->0;
            if p.page == Page::Freq {
                i < freq_count(p) && c == Commit::Freq(p.presets[freq_start(p) + i].1)
            } else {
                c == row_commit(p.page, i)
            }
        }),
{
}

/// No single press both selects and commits: while the finger stays down
/// after a press, wherever it moves, nothing is committed.
pub proof fn law_two_presses_to_commit(
    p: PickerView,
    x: u16,
    y: u16,
    now: u64,
    x2: u16,
    y2: u16,
    later: u64,
)
    ensures
        updated(updated(p, true, x, y, now).0, true, x2, y2, later).1 is None,
{
}

/// Dismissing forgets the selection and goes back to the root.
pub proof fn law_a_press_outside_dismisses(p: PickerView, x: u16, y: u16, now: u64)
    requires
        p.open,
        p.press_since is None,
        target_at(p.origin, x as int, y as int, rows_of(p)) is None,
    ensures
        ({
            let (q, c) = updated(p, true, x, y, now);
            &&& c is None
            &&& !q.open
            &&& q.page == Page::Root
            &&& q.armed is None
            &&& q.just_closed
        }),
{
}

/// A selection left alone for too long is gone.
pub proof fn law_a_selection_lapses(p: PickerView, x: u16, y: u16, now: u64)
    requires
        p.armed is Some,
        since_ms(now, (p.armed->0).1) > ARM_MS,
    ensures
        updated(p, false, x, y, now).0.armed is None,
        p.press_since is Some ==> updated(p, true, x, y, now).0.armed is None,
{
}

/// Holding a finger down anywhere opens the picker once it has been down
/// long enough, and not before.
pub proof fn law_a_hold_opens(p: PickerView, x: u16, y: u16, now: u64)
    requires
        !p.open,
        p.press_since is Some,
    ensures
        updated(p, true, x, y, now).0.open == (since_ms(now, p.press_since->0) >= OPEN_MS),
        updated(p, true, x, y, now).1 is None,
        !updated(p, false, x, y, now).0.open,
{
}

/// No press inside the widget falls between two controls: from the top row
/// to the bottom of the bar, slop included, something is hit.
pub proof fn law_the_bands_are_contiguous(origin: (i32, i32), x: int, y: int, rows: int)
    requires
        0 <= rows <= ROWS,
        origin.0 - SLOP <= x < origin.0 + WIDTH + SLOP,
        origin.1 <= y < origin.1 + commit_top() + COMMIT_H + SLOP,
    ensures
        match target_at(origin, x, y, rows) {
            Some(Target::Mode(i)) => i < rows && origin.1 + i * PITCH <= y < origin.1 + (i + 1)
                * PITCH,
            Some(Target::Commit) => y >= origin.1 + commit_top(),
            Some(Target::Dead) => y >= origin.1 + rows * PITCH,
            None => false,
        },
{
}

/// A frame drawn once is not drawn again until something changes.
pub proof fn law_nothing_is_drawn_twice(p: PickerView, at: Standing)
    requires
        p.open,
        !p.erase_hold,
        frame_kind(p) == Drawn::Overlay,
    ensures
        frame_draws(after_frame(p, Drawn::Overlay), at) == Seq::<DrawView>::empty(),
        frame_kind(after_frame(p, Drawn::Overlay)) == Drawn::Nothing,
{
}

/// The receivers' names go with their boot modes, both ways.
pub proof fn law_receivers_have_their_names(i: int)
    requires
        0 <= i < 4,
    ensures
        (mode_row(i).1 == "FT8"@) == (mode_row(i).0 == BootMode::Uac),
        (mode_row(i).1 == "FT4"@) == (mode_row(i).0 == BootMode::Ft4),
        (mode_row(i).1 == "WSPR"@) == (mode_row(i).0 == BootMode::Wspr),
        (mode_row(i).1 == "FST4"@) == (mode_row(i).0 == BootMode::Fst4),
        mode_row(i).0 == BootMode::Uac || mode_row(i).0 == BootMode::Ft4 || mode_row(i).0
            == BootMode::Wspr || mode_row(i).0 == BootMode::Fst4,
{
    reveal_strlit("FT8");
    reveal_strlit("FT4");
    reveal_strlit("WSPR");
    reveal_strlit("FST4");
    assert("FT8"@[2] == '8' && "FT4"@[2] == '4' && "FT8"@[0] == 'F' && "WSPR"@[0] == 'W');
    assert("FT8"@.len() == 3 && "FT4"@.len() == 3 && "FST4"@.len() == 4);
    assert("FT4"@[0] == 'F' && "FST4"@[0] == 'F');
}

/// The settings' labels go with their values, both ways.
pub proof fn law_settings_have_their_labels(c: ConfigRow)
    ensures
        (c.text() == "TIME: NTP"@) == (c == ConfigRow::Grid(GridSource::Ntp)),
        (c.text() == "TIME: AIR DT"@) == (c == ConfigRow::Grid(GridSource::AirDt)),
        (c.text() == "WIFI: ON"@) == (c == ConfigRow::Wifi(WifiPref::On)),
        (c.text() == "WIFI: OFF"@) == (c == ConfigRow::Wifi(WifiPref::Off)),
{
    reveal_strlit("TIME: NTP");
    reveal_strlit("TIME: AIR DT");
    reveal_strlit("WIFI: ON");
    reveal_strlit("WIFI: OFF");
    assert("TIME: NTP"@[0] == 'T' && "TIME: AIR DT"@[0] == 'T');
    assert("WIFI: ON"@[0] == 'W' && "WIFI: OFF"@[0] == 'W');
    assert("TIME: NTP"@.len() == 9 && "TIME: AIR DT"@.len() == 12);
    assert("WIFI: ON"@.len() == 8 && "WIFI: OFF"@.len() == 9);
}

/// What a row stands for is what its label says: the receiver of that name,
/// the setting with that value, or the replay. No two rows of a page stand
/// for the same.
pub proof fn law_rows_stand_for_what_they_say(p: PickerView, i: int, j: int)
    requires
        0 <= i < j < 4,
    ensures
        p.page == Page::Mode ==> (row_commit(p.page, i) matches Commit::Mode(m) && row_text(p, i)
            == (if m == BootMode::Uac {
            "FT8"@
        } else if m == BootMode::Ft4 {
            "FT4"@
        } else if m == BootMode::Wspr {
            "WSPR"@
        } else {
            "FST4"@
        })),
        p.page == Page::Mode || p.page == Page::Config ==> row_commit(p.page, i) != row_commit(
            p.page,
            j,
        ),
        p.page == Page::Config ==> match row_commit(p.page, i) {
            Commit::Grid(src) => row_text(p, i) == ConfigRow::Grid(src).text(),
            Commit::Wifi(pref) => row_text(p, i) == ConfigRow::Wifi(pref).text(),
            _ => false,
        },
        row_commit(Page::Demo, 0) == Commit::Mode(BootMode::Decode),
{
    law_receivers_have_their_names(i);
}

/// A press on the bar commits the row that is selected. A dial is set at
/// once and the picker is gone; anything else leaves it standing, committing.
pub proof fn law_a_press_on_the_bar_commits(p: PickerView, x: u16, y: u16, now: u64)
    requires
        p.open,
        p.press_since is None,
        p.armed is Some,
        p.page != Page::Root,
        p.page == Page::Freq ==> (p.armed->0).0 < freq_count(p),
        target_at(p.origin, x as int, y as int, rows_of(p)) == Some(Target::Commit),
    ensures
        ({
            let i = (p.armed->0).0 as int;
            let (q, c) = updated(p, true, x, y, now);
            &&& c is Some
            &&& p.page == Page::Freq ==> c->0 == Commit::Freq(p.presets[freq_start(p) + i].1)
                && !q.open && !q.committing && q.page == Page::Root
            &&& p.page != Page::Freq ==> c->0 == row_commit(p.page, i) && q.open && q.committing
                && q.page == p.page && q.armed == p.armed
        }),
{
}

/// A press on a row of a page selects it, from now on, and leaves the page
/// as it is; a press on an unused row, or on the bar with nothing selected,
/// selects nothing.
pub proof fn law_a_press_on_a_row_selects(p: PickerView, i: usize, x: u16, y: u16, now: u64)
    requires
        p.open,
        p.press_since is None,
        p.armed is None,
    ensures
        ({
            let t = target_at(p.origin, x as int, y as int, rows_of(p));
            let (q, c) = updated(p, true, x, y, now);
            &&& c is None
            &&& t == Some(Target::Mode(i)) && p.page != Page::Root && (p.page != Page::Freq || i
                < freq_count(p)) ==> q.armed == Some((i, now)) && q.page == p.page && q.open
                && q.freq_page == p.freq_page
            &&& t == Some(Target::Dead) || t == Some(Target::Commit) ==> q.armed is None && q.page
                == p.page && q.open && q.freq_page == p.freq_page
        }),
{
}

/// A row of the root opens the page it names, with nothing selected.
pub proof fn law_the_root_opens_its_pages(p: PickerView, i: usize, now: u64)
    requires
        p.page == Page::Root,
        i < 4,
    ensures
        ({
            let q = row_pressed(p, i, now);
            &&& q.armed is None && q.open == p.open
            &&& (row_text(p, i as int) == "MODE"@) == (q.page == Page::Mode)
            &&& (row_text(p, i as int) == "CONFIG"@) == (q.page == Page::Config)
            &&& (row_text(p, i as int) == "FREQ"@) == (q.page == Page::Freq)
            &&& (row_text(p, i as int) == "DEMO"@) == (q.page == Page::Demo)
            &&& q.page != Page::Root
        }),
{
    reveal_strlit("MODE");
    reveal_strlit("CONFIG");
    reveal_strlit("FREQ");
    reveal_strlit("DEMO");
    assert("MODE"@[0] == 'M' && "CONFIG"@[0] == 'C' && "FREQ"@[0] == 'F' && "DEMO"@[0] == 'D');
}

/// Presets that fit are shown whole; of more, three go on a page and NEXT
/// stands below them, and every preset is on the page of its turn, with its
/// own label.
pub proof fn law_every_preset_has_its_page(p: PickerView, k: int)
    requires
        p.page == Page::Freq,
        0 <= k < p.presets.len(),
        p.presets.len() > 4 ==> p.freq_page == k / 3,
    ensures
        p.presets.len() <= 4 ==> freq_start(p) == 0 && rows_of(p) == p.presets.len() && row_text(
            p,
            k,
        ) == p.presets[k].0,
        p.presets.len() > 4 ==> freq_start(p) <= k < freq_start(p) + freq_count(p) && rows_of(p)
            == freq_count(p) + 1 && freq_count(p) <= 3 && row_text(p, k % 3) == p.presets[k].0
            && row_text(p, freq_count(p)) == "NEXT >"@,
{
    let n = p.presets.len() as int;
    if n > 4 {
        let of = (n + 2) / 3;
        assert(k / 3 < of);
        vstd::arithmetic::div_mod::lemma_small_mod((k / 3) as nat, of as nat);
        assert(freq_start(p) == k / 3 * 3);
        assert(k == k / 3 * 3 + k % 3);
    }
}

/// NEXT turns to the page after and selects nothing; after the last page
/// comes the first again.
pub proof fn law_next_turns_the_page(p: PickerView, i: usize, now: u64)
    requires
        p.page == Page::Freq,
        p.presets.len() > 4,
        i >= freq_count(p),
        p.freq_page + 1 < p.presets.len() <= usize::MAX,
    ensures
        ({
            let q = row_pressed(p, i, now);
            let of = (p.presets.len() + 2) / 3;
            &&& q.armed is None && q.page == Page::Freq
            &&& p.freq_page + 1 < of ==> freq_start(q) == freq_start(p) + 3
            &&& p.freq_page + 1 == of ==> freq_start(q) == 0
        }),
{
    let of = (p.presets.len() + 2) / 3;
    let a = p.freq_page as int;
    if a + 1 < of {
        vstd::arithmetic::div_mod::lemma_small_mod(a as nat, of as nat);
        vstd::arithmetic::div_mod::lemma_small_mod((a + 1) as nat, of as nat);
    } else if a + 1 == of {
        vstd::arithmetic::div_mod::lemma_mod_self_0(of as int);
    }
}

/// The dial page opens where the rig is: at the page with the first preset
/// of its dial, or at the first page if there is none.
pub proof fn law_the_dial_page_opens_at_the_rig(p: PickerView, hz: u32, k: int)
    requires
        p.rig_hz == Some(hz),
        p.presets.len() > 4,
        0 <= k < p.presets.len(),
        p.presets[k].1 == hz,
        forall|i: int| 0 <= i < k ==> (#[trigger] p.presets[i]).1 != hz,
    ensures
        3 * opening_page(p) <= k < 3 * opening_page(p) + 3,
        opening_page(PickerView { rig_hz: None, ..p }) == 0,
{
    lemma_preset_at(p.presets, hz, k);
}

/// The star stands at what is running: a row has it if committing the row
/// would change nothing.
pub proof fn law_the_star_is_where_the_boot_is(p: PickerView, i: int, at: Standing)
    requires
        0 <= i < rows_of(p),
    ensures
        p.page == Page::Root ==> !is_current(p, i, at),
        p.page == Page::Mode || p.page == Page::Demo ==> is_current(p, i, at) == (row_commit(
            p.page,
            i,
        ) == Commit::Mode(at.mode)),
        p.page == Page::Config ==> is_current(p, i, at) == (row_commit(p.page, i) == Commit::Grid(
            at.grid,
        ) || row_commit(p.page, i) == Commit::Wifi(at.wifi)),
        p.page == Page::Freq ==> is_current(p, i, at) == (i < freq_count(p) && p.rig_hz is Some
            && p.rig_hz->0 == p.presets[freq_start(p) + i].1),
        is_current(p, i, at) ==> row_draws(p, i, at).len() == 3,
        !is_current(p, i, at) ==> row_draws(p, i, at).len() == 2,
{
}

/// A touch on what is drawn of a row lands on that row, and one on the bar
/// lands on the bar. The row shows its own label.
pub proof fn law_what_is_drawn_is_what_is_hit(
    p: PickerView,
    i: int,
    at: Standing,
    dx: int,
    dy: int,
)
    requires
        0 <= i < rows_of(p),
        rows_of(p) <= 4,
        0 <= dx < 208,
        0 <= dy < 40,
    ensures
        row_draws(p, i, at)[0] matches DrawView::Fill { x, y, w, h, colour } && w == 208 && h == 40
            && target_at(p.origin, x + dx, y + dy, rows_of(p)) == Some(Target::Mode(i as usize)),
        row_draws(p, i, at)[1] matches DrawView::Label { x, y, text, fg, bg } && text == row_text(
            p,
            i,
        ) && target_at(p.origin, x, y, rows_of(p)) == Some(Target::Mode(i as usize)) && fg != bg,
        bar_draws(p)[0] matches DrawView::Fill { x, y, w, h, colour } && w == 208 && h == 40
            && target_at(p.origin, x + dx, y + dy, rows_of(p)) == Some(Target::Commit),
{
}

/// The finger shows in orange over everything, a selection in green, and the
/// bar is dark until something is selected.
pub proof fn law_touches_have_their_colours(p: PickerView, i: usize)
    ensures
        (row_colours(p, i as int).0 == Colour::Orange) == (p.pressed == Some(Target::Mode(i))),
        p.pressed != Some(Target::Mode(i)) ==> (row_colours(p, i as int).0 == Colour::Green) == (
        p.armed is Some && (p.armed->0).0 == i),
        row_colours(p, i as int).0 == Colour::Black ==> row_colours(p, i as int).1
            == Colour::White,
        row_colours(p, i as int).0 != Colour::Black ==> row_colours(p, i as int).1
            == Colour::Black,
        (bar_colours(p).0 == Colour::Green) == p.committing,
        !p.committing ==> (bar_colours(p).0 == Colour::Orange) == (p.pressed == Some(
            Target::Commit,
        )),
        !p.committing && p.pressed != Some(Target::Commit) ==> (bar_colours(p).0
            == Colour::DarkGreen) == (p.armed is Some),
{
}

/// The bar says what it will apply, by the label of the selected row, as long
/// as that fits; without a selection it asks for one.
pub proof fn law_the_bar_names_the_selection(p: PickerView, i: usize, since: u64)
    requires
        p.page != Page::Root,
        p.armed == Some((i, since)),
        encode_utf8(row_text(p, i as int)).len() <= 23,
    ensures
        p.committing ==> bar_text(p) == "APPLYING "@ + row_text(p, i as int),
        !p.committing ==> bar_text(p) == "APPLY "@ + row_text(p, i as int),
{
    reveal_strlit("APPLYING ");
    reveal_strlit("APPLY ");
    lemma_ascii_bytes("APPLYING "@);
    lemma_ascii_bytes("APPLY "@);
    lemma_ascii_bytes(Seq::<char>::empty());
    assert(Seq::<char>::empty() + "APPLYING "@ =~= "APPLYING "@);
    assert(Seq::<char>::empty() + "APPLY "@ =~= "APPLY "@);
}

/// A point is painted by a bar.
pub open spec fn paints(d: DrawView, x: int, y: int) -> bool {
    match d {
        DrawView::Fill { x: left, y: top, w, h, colour } => left <= x < left + w && top <= y < top
            + h,
        _ => false,
    }
}

/// The border is the two outermost pixels of the panel on every side, in one
/// colour, and nothing else.
pub proof fn law_the_border_is_round_the_panel(screen: (u32, u32), colour: Colour, x: int, y: int)
    requires
        2 <= screen.0,
        2 <= screen.1,
        0 <= x < screen.0,
        0 <= y < screen.1,
    ensures
        ({
            let b = border(screen, colour);
            &&& b.len() == 4
            &&& (paints(b[0], x, y) || paints(b[1], x, y) || paints(b[2], x, y) || paints(
                b[3],
                x,
                y,
            )) == (x < 2 || y < 2 || x >= screen.0 - 2 || y >= screen.1 - 2)
            &&& b[0]->Fill_colour == colour && b[1]->Fill_colour == colour && b[2]->Fill_colour
                == colour && b[3]->Fill_colour == colour
        }),
{
}

/// A closed picker shows the finger by its border: orange while one is down
/// and gone when it is lifted, each drawn once. An open one repaints all its
/// rows and the bar, and takes the border away if it is still there.
pub proof fn law_the_border_follows_the_finger(p: PickerView, at: Standing)
    ensures
        !p.open && p.press_since is Some && !p.hold_drawn ==> frame_draws(p, at) == border(
            p.screen,
            Colour::Orange,
        ) && after_frame(p, frame_kind(p)).hold_drawn,
        !p.open && p.press_since is None && p.hold_drawn ==> frame_draws(p, at) == border(
            p.screen,
            Colour::Black,
        ) && !after_frame(p, frame_kind(p)).hold_drawn,
        !p.open && (p.press_since is Some) == p.hold_drawn ==> frame_draws(p, at).len() == 0,
        p.open && p.erase_hold ==> frame_draws(p, at).take(4) == border(p.screen, Colour::Black),
        p.open && p.needs_draw ==> frame_kind(p) == Drawn::Overlay,
{
    if p.open && p.erase_hold {
        assert(frame_draws(p, at).take(4) =~= border(p.screen, Colour::Black));
    }
}

}
