//! The USB host: bringing it up, what it reports, and the link's state as
//! an operator sees it.

use crate::fixed::{text96_new, text_push_str};
use crate::fixed::text96;
use crate::station::prefs::GridSource;
use crate::text::{add_dec, add_signed};
use crate::text::{dec, signed_dec};
use crate::uac::reader::ReaderGate;
use crate::uac::slot_grid::GridLock;
use crate::uac::tx::probe_text;
use crate::uac::tx::TxProbe;
use vstd::prelude::*;
use vstd::utf8::encode_utf8;

verus! {

// ── State ───────────────────────────────────────────────────────────────────

/// What the USB side is doing.
#[derive(Debug, Clone, Copy, PartialEq, Eq, Structural)]
pub enum UacState {
    /// Host stack not installed.
    Off,
    /// Installed, nothing attached.
    Waiting,
    /// A device is streaming.
    Streaming,
    /// Attached but the stream could not be started, or the reader died.
    Error,
}

/// The USB side's state and its last-second figures.
#[derive(Debug, Clone, Copy, PartialEq, Eq, Structural)]
pub struct UacStatus {
    pub state: UacState,
    /// Samples at 12 kHz in the last second.
    pub sa_per_s: u32,
    /// The level as -dBFS in tenths; `u32::MAX` before any sample.
    pub rms_mdb: u32,
}

impl UacStatus {
    pub fn new() -> (r: Self)
        ensures
            r == (UacStatus { state: UacState::Off, sa_per_s: 0, rms_mdb: u32::MAX }),
    {
        UacStatus { state: UacState::Off, sa_per_s: 0, rms_mdb: u32::MAX }
    }

    pub fn set_state(&mut self, state: UacState)
        ensures
            *final(self) == (UacStatus { state, ..*old(self) }),
    {
        self.state = state;
    }

    /// A second's figures: the level is kept only if there were samples.
    pub fn measured(&mut self, samples: u32, level_mdb: u32)
        ensures
            *final(self) == (UacStatus {
                sa_per_s: samples,
                rms_mdb: if samples > 0 {
                    level_mdb
                } else {
                    u32::MAX
                },
                ..*old(self)
            }),
    {
        self.sa_per_s = samples;
        self.rms_mdb = if samples > 0 {
            level_mdb
        } else {
            u32::MAX
        };
    }
}

/// The state, the rate, and the level in tenths of dBFS.
pub fn status(s: &UacStatus) -> (r: (UacState, u32, Option<i64>))
    ensures
        r.0 == s.state,
        r.1 == s.sa_per_s,
        r.2 == if s.rms_mdb == u32::MAX {
            None::<i64>
        } else {
            Some((0 - s.rms_mdb) as i64)
        },
{
    let rms: Option<i64> = if s.rms_mdb != u32::MAX {
        Some(-(s.rms_mdb as i64))
    } else {
        None
    };
    (s.state, s.sa_per_s, rms)
}

/// What the host library and the class driver have reported.
#[derive(Debug, Clone, Copy, PartialEq, Eq, Structural)]
pub struct UsbCounters {
    /// Devices enumerated; -1 before the first look.
    pub devices: i32,
    pub clients: i32,
    /// Class-driver events, wrapping.
    pub driver_events: u32,
    /// The last error, 0 for none.
    pub last_err: u32,
    /// The last audio interface in, or -1.
    pub rx_iface: i32,
    /// The last audio interface out, or -1.
    pub tx_iface: i32,
}

/// A hot-plug event.
#[derive(Debug, Clone, Copy, PartialEq, Eq, Structural)]
pub enum DriverEvent {
    RxConnected { addr: u8, iface_num: u8 },
    TxConnected { addr: u8, iface_num: u8 },
}

impl UsbCounters {
    pub fn new() -> (r: Self)
        ensures
            r == (UsbCounters {
                devices: (-1) as i32,
                clients: (-1) as i32,
                driver_events: 0,
                last_err: 0,
                rx_iface: (-1) as i32,
                tx_iface: (-1) as i32,
            }),
    {
        UsbCounters {
            devices: -1,
            clients: -1,
            driver_events: 0,
            last_err: 0,
            rx_iface: -1,
            tx_iface: -1,
        }
    }

    /// Counts an event and keeps the interface it named: the line that
    /// reports it may never be seen.
    pub fn note_event(&mut self, event: DriverEvent)
        ensures
            *final(self) == (UsbCounters {
                driver_events: if old(self).driver_events < u32::MAX {
                    (old(self).driver_events + 1) as u32
                } else {
                    0
                },
                rx_iface: match event {
                    DriverEvent::RxConnected { iface_num, .. } => iface_num as i32,
                    _ => old(self).rx_iface,
                },
                tx_iface: match event {
                    DriverEvent::TxConnected { iface_num, .. } => iface_num as i32,
                    _ => old(self).tx_iface,
                },
                ..*old(self)
            }),
    {
        self.driver_events = self.driver_events.wrapping_add(1);
        match event {
            DriverEvent::RxConnected { iface_num, .. } => {
                self.rx_iface = iface_num as i32;
            },
            DriverEvent::TxConnected { iface_num, .. } => {
                self.tx_iface = iface_num as i32;
            },
        }
    }

    pub fn note_err(&mut self, err: u32)
        ensures
            *final(self) == (UsbCounters { last_err: err, ..*old(self) }),
    {
        self.last_err = err;
    }

    pub fn note_counts(&mut self, devices: i32, clients: i32)
        ensures
            *final(self) == (UsbCounters { devices, clients, ..*old(self) }),
    {
        self.devices = devices;
        self.clients = clients;
    }
}

/// Devices, clients, driver events, last error.
pub fn usb_counters(c: &UsbCounters) -> (r: (i32, i32, u32, u32))
    ensures
        r == (c.devices, c.clients, c.driver_events, c.last_err),
{
    (c.devices, c.clients, c.driver_events, c.last_err)
}

// ── Events ──────────────────────────────────────────────────────────────────

/// What to do about an event.
#[derive(Debug, Clone, Copy, PartialEq, Eq, Structural)]
pub enum AppAction {
    OpenRx { addr: u8, iface_num: u8 },
    /// A reader is already at work.
    Duplicate,
    ProbeTx { addr: u8, iface_num: u8 },
    /// Receiving only.
    IgnoreTx,
}

/// One reader at a time; the way out is probed only when asked for.
pub fn app_action(gate: &mut ReaderGate, event: DriverEvent, tx_probe: bool) -> (r: AppAction)
    ensures
        match event {
            DriverEvent::RxConnected { addr, iface_num } => r == (if old(gate).active {
                AppAction::Duplicate
            } else {
                AppAction::OpenRx { addr, iface_num }
            }) && *final(gate) == (ReaderGate { active: true, ..*old(gate) }),
            DriverEvent::TxConnected { addr, iface_num } => r == (if tx_probe {
                AppAction::ProbeTx { addr, iface_num }
            } else {
                AppAction::IgnoreTx
            }) && *final(gate) == *old(gate),
        },
{
    match event {
        DriverEvent::RxConnected { addr, iface_num } => {
            if gate.enter() {
                AppAction::OpenRx { addr, iface_num }
            } else {
                AppAction::Duplicate
            }
        },
        DriverEvent::TxConnected { addr, iface_num } => {
            if tx_probe {
                AppAction::ProbeTx { addr, iface_num }
            } else {
                AppAction::IgnoreTx
            }
        },
    }
}

/// The steps of starting to receive.
#[derive(Debug, Clone, Copy, PartialEq, Eq, Structural)]
pub enum RxStep {
    Open,
    Start,
    SpawnReader,
}

/// What follows a step.
#[derive(Debug, Clone, Copy, PartialEq, Eq, Structural)]
pub enum RxNext {
    Do { step: RxStep },
    Streaming,
    /// Give up, after undoing what was done.
    Fail { stop: bool, close: bool },
}

/// A step that fails undoes the ones before it: an open device is closed,
/// a started one stopped first.
pub fn rx_next(step: RxStep, ok: bool) -> (r: RxNext)
    ensures
        r == match step {
            RxStep::Open => if ok {
                RxNext::Do { step: RxStep::Start }
            } else {
                RxNext::Fail { stop: false, close: false }
            },
            RxStep::Start => if ok {
                RxNext::Do { step: RxStep::SpawnReader }
            } else {
                RxNext::Fail { stop: false, close: true }
            },
            RxStep::SpawnReader => if ok {
                RxNext::Streaming
            } else {
                RxNext::Fail { stop: true, close: true }
            },
        },
{
    match step {
        RxStep::Open => {
            if ok {
                RxNext::Do { step: RxStep::Start }
            } else {
                RxNext::Fail { stop: false, close: false }
            }
        },
        RxStep::Start => {
            if ok {
                RxNext::Do { step: RxStep::SpawnReader }
            } else {
                RxNext::Fail { stop: false, close: true }
            }
        },
        RxStep::SpawnReader => {
            if ok {
                RxNext::Streaming
            } else {
                RxNext::Fail { stop: true, close: true }
            }
        },
    }
}

// ── Bringing the host up ────────────────────────────────────────────────────

/// The steps of bringing the host up. The channel comes first: an event may
/// come as soon as the class driver is installed.
#[derive(Debug, Clone, Copy, PartialEq, Eq, Structural)]
pub enum HostStep {
    Channel,
    AppTask,
    InstallHost,
    EventsTask,
    InstallClassDriver,
}

/// What follows a step.
#[derive(Debug, Clone, Copy, PartialEq, Eq, Structural)]
pub enum HostNext {
    Do { step: HostStep },
    Up,
    /// Give up, after undoing what was done: the host stack is removed if
    /// it was installed, and its event task woken first if it runs.
    Fail { unblock: bool, uninstall: bool },
}

pub open spec fn host_after(step: HostStep, ok: bool) -> HostNext {
    if ok {
        match step {
            HostStep::Channel => HostNext::Do { step: HostStep::AppTask },
            HostStep::AppTask => HostNext::Do { step: HostStep::InstallHost },
            HostStep::InstallHost => HostNext::Do { step: HostStep::EventsTask },
            HostStep::EventsTask => HostNext::Do { step: HostStep::InstallClassDriver },
            HostStep::InstallClassDriver => HostNext::Up,
        }
    } else {
        HostNext::Fail {
            unblock: step == HostStep::InstallClassDriver,
            uninstall: step == HostStep::EventsTask || step == HostStep::InstallClassDriver,
        }
    }
}

pub fn host_next(step: HostStep, ok: bool) -> (r: HostNext)
    ensures
        r == host_after(step, ok),
{
    if !ok {
        return HostNext::Fail {
            unblock: step == HostStep::InstallClassDriver,
            uninstall: step == HostStep::EventsTask || step == HostStep::InstallClassDriver,
        };
    }
    match step {
        HostStep::Channel => HostNext::Do { step: HostStep::AppTask },
        HostStep::AppTask => HostNext::Do { step: HostStep::InstallHost },
        HostStep::InstallHost => HostNext::Do { step: HostStep::EventsTask },
        HostStep::EventsTask => HostNext::Do { step: HostStep::InstallClassDriver },
        HostStep::InstallClassDriver => HostNext::Up,
    }
}

/// How many steps are left after one that went well.
pub open spec fn steps_left(n: HostNext) -> nat {
    match n {
        HostNext::Do { step } => match step {
            HostStep::Channel => 5,
            HostStep::AppTask => 4,
            HostStep::InstallHost => 3,
            HostStep::EventsTask => 2,
            HostStep::InstallClassDriver => 1,
        },
        _ => 0,
    }
}

/// Bringing the host up ends: every step that goes well leaves one step
/// fewer, and one that fails leaves none.
pub proof fn law_the_host_comes_up_or_fails(step: HostStep, ok: bool)
    ensures
        steps_left(host_after(step, ok)) < steps_left(HostNext::Do { step }),
        ok ==> steps_left(host_after(step, ok)) + 1 == steps_left(HostNext::Do { step }),
{
}

/// What became of the host.
#[derive(Debug, Clone, Copy, PartialEq, Eq, Structural)]
pub struct HostState {
    pub installed: bool,
}

impl HostState {
    pub fn new() -> (r: Self)
        ensures
            !r.installed,
    {
        HostState { installed: false }
    }

    /// The host is up.
    pub fn up(&mut self)
        ensures
            final(self).installed,
    {
        self.installed = true;
    }
}

/// Whether the host driver was installed.
pub fn host_installed(h: &HostState) -> (r: bool)
    ensures
        r == h.installed,
{
    h.installed
}

/// What is kept of a failure: the reason, if it fits whole.
pub open spec fn failed_text(reason: Seq<char>) -> Seq<char> {
    if encode_utf8("start_host FAILED: "@).len() + encode_utf8(reason).len() <= 96 {
        "start_host FAILED: "@ + reason
    } else {
        "start_host FAILED: "@
    }
}

pub fn host_failed(reason: &str) -> (r: heapless::String<96>)
    ensures
        text96(r) == failed_text(reason@),
{
    let mut msg = text96_new();
    proof {
        reveal_strlit("start_host FAILED: ");
        crate::fixed::lemma_ascii_bytes("start_host FAILED: "@);
        crate::fixed::lemma_ascii_bytes(Seq::<char>::empty());
        assert(Seq::<char>::empty() + "start_host FAILED: "@ =~= "start_host FAILED: "@);
    }
    let _head = text_push_str(&mut msg, "start_host FAILED: ");
    let _why = text_push_str(&mut msg, reason);
    msg
}

/// How long to wait for the log before bringing the host up without it.
pub const LOG_SINK_WAIT_MS: u32 = 8_000;

/// How long to sleep between looks.
pub const LOG_SINK_STEP_MS: u32 = 250;

/// Whether to wait for the log.
#[derive(Debug, Clone, Copy, PartialEq, Eq, Structural)]
pub enum SinkWait {
    /// Look again after a sleep, having waited this long by then.
    Sleep { waited_ms: u32 },
    /// The log is there, or none is coming.
    Go,
    /// Waited long enough.
    GoWithout,
}

/// The wait is bounded: a receiver without a network still has to start.
pub fn sink_wait(expected: bool, waited_ms: u32, up: bool) -> (r: SinkWait)
    ensures
        r == if !expected {
            SinkWait::Go
        } else if waited_ms >= LOG_SINK_WAIT_MS {
            SinkWait::GoWithout
        } else if up {
            SinkWait::Go
        } else {
            SinkWait::Sleep { waited_ms: (waited_ms + LOG_SINK_STEP_MS) as u32 }
        },
{
    if !expected {
        SinkWait::Go
    } else if waited_ms >= LOG_SINK_WAIT_MS {
        SinkWait::GoWithout
    } else if up {
        SinkWait::Go
    } else {
        SinkWait::Sleep { waited_ms: waited_ms + LOG_SINK_STEP_MS }
    }
}

// ── Looking at the devices ──────────────────────────────────────────────────

/// Looks without a change before a report comes anyway.
pub const QUIET_LOOKS: u32 = 5;

/// How often the devices are listed.
pub const DUMPS: u32 = 3;

/// The periodic look at the devices.
#[derive(Debug, Clone, Copy, PartialEq, Eq, Structural)]
pub struct DeviceProbe {
    pub last: i32,
    pub since_log: u32,
    /// Reports with a device present, wrapping.
    pub dumped: u32,
}

/// What a look leads to.
#[derive(Debug, Clone, Copy, PartialEq, Eq, Structural)]
pub struct Look {
    pub report: bool,
    pub list_devices: bool,
}

/// A report is due: the count changed, or it has been a while.
pub open spec fn report_due(p: DeviceProbe, devices: i32) -> bool {
    devices != p.last || p.since_log >= QUIET_LOOKS
}

impl DeviceProbe {
    pub fn new() -> (r: Self)
        ensures
            r == (DeviceProbe { last: (-1) as i32, since_log: u32::MAX, dumped: 0 }),
    {
        DeviceProbe { last: -1, since_log: u32::MAX, dumped: 0 }
    }

    pub fn look(&mut self, devices: i32) -> (r: Look)
        ensures
            r.report == report_due(*old(self), devices),
            r.list_devices == (r.report && devices > 0 && old(self).dumped < DUMPS),
            *final(self) == if r.report {
                DeviceProbe {
                    last: devices,
                    since_log: 0,
                    dumped: if devices <= 0 {
                        old(self).dumped
                    } else if old(self).dumped < u32::MAX {
                        (old(self).dumped + 1) as u32
                    } else {
                        0
                    },
                }
            } else {
                DeviceProbe { since_log: (old(self).since_log + 1) as u32, ..*old(self) }
            },
    {
        if devices != self.last || self.since_log >= QUIET_LOOKS {
            let mut list = false;
            if devices > 0 {
                list = self.dumped < DUMPS;
                self.dumped = self.dumped.wrapping_add(1);
            }
            self.last = devices;
            self.since_log = 0;
            Look { report: true, list_devices: list }
        } else {
            self.since_log = self.since_log + 1;
            Look { report: false, list_devices: false }
        }
    }
}

/// An interface that was seen, or never.
pub open spec fn iface_text(v: i32) -> Seq<char> {
    if v < 0 {
        "never"@
    } else {
        "iface "@ + dec(v as nat)
    }
}

fn add_iface(s: &mut String, v: i32)
    ensures
        final(s)@ == old(s)@ + iface_text(v),
{
    if v < 0 {
        s.append("never");
    } else {
        s.append("iface ");
        add_dec(s, v as u64);
        assert(s@ =~= old(s)@ + iface_text(v));
    }
}

/// The report.
pub open spec fn device_line(c: UsbCounters, p: TxProbe) -> Seq<char> {
    "uac: usb_host_lib_info — num_devices="@ + signed_dec(c.devices as int) + " num_clients="@
        + signed_dec(c.clients as int) + " | audio IN "@ + iface_text(c.rx_iface)
        + " | audio OUT "@ + iface_text(c.tx_iface) + " | tx "@ + probe_text(p)
}

pub fn device_report(c: &UsbCounters, probe: &TxProbe) -> (r: String)
    ensures
        r@ == device_line(*c, *probe),
{
    let mut s = "uac: usb_host_lib_info — num_devices=".to_owned();
    add_signed(&mut s, c.devices as i64);
    s.append(" num_clients=");
    add_signed(&mut s, c.clients as i64);
    s.append(" | audio IN ");
    add_iface(&mut s, c.rx_iface);
    s.append(" | audio OUT ");
    add_iface(&mut s, c.tx_iface);
    s.append(" | tx ");
    let tx = probe.summary();
    s.append(tx.as_str());
    s
}

// ── The link ────────────────────────────────────────────────────────────────

/// The USB link as an operator should see it.
#[derive(Debug, Clone, Copy, PartialEq, Eq, Structural)]
pub enum UsbLink {
    /// Host mode was chosen and there is no host.
    NoHost,
    /// Another host powers the port.
    Peripheral,
    Waiting,
    Streaming,
    Error,
}

/// The power side, as read from its controller.
#[derive(Debug, Clone, Copy, PartialEq, Eq, Structural)]
pub struct PowerState {
    /// The firmware tried to power the port.
    pub tried_vbus: bool,
    pub p0: u8,
    pub p1: u8,
}

/// The bits of the power controller.
#[derive(Debug, Clone, Copy, PartialEq, Eq, Structural)]
pub struct PowerBits {
    pub boost_en: u8,
    pub usb_otg_en: u8,
    pub bus_out_en: u8,
}

/// What the board knows besides the USB side.
#[derive(Debug, Clone, Copy, PartialEq, Eq, Structural)]
pub struct BoardInfo {
    pub wifi_rssi: Option<i32>,
    pub expander_ok: bool,
    pub battery_mv: Option<u32>,
    pub vbus_mv: Option<u32>,
    pub clock_set: bool,
    pub grid: GridLock,
    pub grid_src: GridSource,
}

/// The state of the links.
#[derive(Debug, Clone, Copy, PartialEq, Eq)]
pub struct LinkInfo {
    pub usb: UsbLink,
    pub devices: u8,
    pub board: BoardInfo,
    /// Boost, OTG and bus output, once the port was to be powered.
    pub vbus: Option<(bool, bool, bool)>,
}

/// The role comes from what the firmware decided, not from whether the
/// driver came up: a board that chose host mode and has no host is a fault.
pub open spec fn usb_link(state: UacState, installed: bool, tried_vbus: bool) -> UsbLink {
    if !installed {
        if tried_vbus {
            UsbLink::NoHost
        } else {
            UsbLink::Peripheral
        }
    } else {
        match state {
            UacState::Streaming => UsbLink::Streaming,
            UacState::Error => UsbLink::Error,
            UacState::Off => UsbLink::Waiting,
            UacState::Waiting => UsbLink::Waiting,
        }
    }
}

/// The state of the USB and network links.
pub fn link_info(
    uac: &UacStatus,
    counters: &UsbCounters,
    host: &HostState,
    power: &PowerState,
    bits: &PowerBits,
    board: &BoardInfo,
) -> (r: LinkInfo)
    ensures
        r.usb == usb_link(uac.state, host.installed, power.tried_vbus),
        r.devices == if counters.devices < 0 {
            0
        } else if counters.devices > 9 {
            9
        } else {
            counters.devices as int
        },
        r.board == *board,
        r.vbus == if power.tried_vbus {
            Some(
                (
                    power.p1 & bits.boost_en != 0,
                    power.p0 & bits.usb_otg_en != 0,
                    power.p0 & bits.bus_out_en != 0,
                ),
            )
        } else {
            None
        },
{
    let usb = if !host.installed {
        if power.tried_vbus {
            UsbLink::NoHost
        } else {
            UsbLink::Peripheral
        }
    } else {
        match uac.state {
            UacState::Streaming => UsbLink::Streaming,
            UacState::Error => UsbLink::Error,
            UacState::Off | UacState::Waiting => UsbLink::Waiting,
        }
    };
    let devices: u8 = if counters.devices < 0 {
        0
    } else if counters.devices > 9 {
        9
    } else {
        counters.devices as u8
    };
    let vbus = if power.tried_vbus {
        Some(
            (
                power.p1 & bits.boost_en != 0,
                power.p0 & bits.usb_otg_en != 0,
                power.p0 & bits.bus_out_en != 0,
            ),
        )
    } else {
        None
    };
    LinkInfo { usb, devices, board: *board, vbus }
}

/// What was done is undone when a later step fails, and nothing else: the
/// host stack is removed once it was installed, and its event task woken once
/// it runs. The class driver comes last, after the tasks that serve it.
pub proof fn law_a_failed_step_is_undone(step: HostStep)
    ensures
        host_after(step, false) is Fail,
        host_after(step, false)->uninstall == (steps_left(HostNext::Do { step }) < steps_left(
            HostNext::Do { step: HostStep::InstallHost },
        )),
        host_after(step, false)->unblock == (steps_left(HostNext::Do { step }) < steps_left(
            HostNext::Do { step: HostStep::EventsTask },
        )),
        host_after(step, true) is Up <==> step == HostStep::InstallClassDriver,
        host_after(HostStep::InstallHost, true) == (HostNext::Do { step: HostStep::EventsTask }),
        host_after(HostStep::AppTask, true) == (HostNext::Do { step: HostStep::InstallHost }),
{
}

/// Without a host the link is a fault if the port was to be powered, and
/// another host's if not; with one it shows what the audio side does.
pub proof fn law_the_link_shows_its_state(state: UacState, installed: bool, tried: bool)
    ensures
        usb_link(state, installed, tried) == UsbLink::NoHost <==> tried && !installed,
        usb_link(state, installed, tried) == UsbLink::Peripheral <==> !tried && !installed,
        usb_link(state, installed, tried) == UsbLink::Streaming <==> installed && state
            == UacState::Streaming,
        usb_link(state, installed, tried) == UsbLink::Error <==> installed && state
            == UacState::Error,
{
}

/// A look is reported when the number of devices changed, and else after
/// five without a report.
pub proof fn law_looks_are_reported_now_and_then(p: DeviceProbe, devices: i32)
    ensures
        devices != p.last ==> report_due(p, devices),
        devices == p.last ==> report_due(p, devices) == (p.since_log >= 5),
{
}

/// An interface that was seen is shown by its number, from 0 on; one that
/// never was is not.
pub proof fn law_interfaces_are_shown_by_number(v: i32)
    ensures
        v >= 0 ==> iface_text(v) == "iface "@ + dec(v as nat),
        v < 0 ==> iface_text(v) == "never"@,
{
}

/// A reason of up to 77 plain characters is kept whole behind the words that
/// say what failed, and a longer one not at all.
pub proof fn law_reasons_are_kept_whole(reason: Seq<char>)
    requires
        forall|i: int| 0 <= i < reason.len() ==> (#[trigger] reason[i] as u32) < 128,
    ensures
        reason.len() <= 77 ==> failed_text(reason) == "start_host FAILED: "@ + reason,
        reason.len() > 77 ==> failed_text(reason) == "start_host FAILED: "@,
{
    reveal_strlit("start_host FAILED: ");
    crate::fixed::lemma_ascii_bytes("start_host FAILED: "@);
    crate::fixed::lemma_ascii_bytes(reason);
}

}
