use mfsk::station::prefs::GridSource;
use mfsk::uac::descriptor::{self, walk_config, Record};
use mfsk::uac::host::{
    app_action, device_report, host_failed, host_installed, host_next, link_info, rx_next,
    sink_wait, status, usb_counters, AppAction, BoardInfo, DeviceProbe, DriverEvent, HostNext,
    HostState, HostStep, Look, PowerBits, PowerState, RxNext, RxStep, SinkWait, UacState,
    UacStatus, UsbCounters, UsbLink,
};
use mfsk::uac::reader::{
    left_channel, needs_close, resample_next, AfterRead, BlockTimes, Leave, Levels, ReadOutcome,
    ReaderGate, Session, Step,
};
use mfsk::uac::slot_grid::GridLock;
use mfsk::uac::tx::{hold4, probe_message, tx_config, Frame, FrameStep, TxAction, TxProbe};

// ── Reading ─────────────────────────────────────────────────────────────────

#[test]
fn the_left_channel_is_taken() {
    let buf = [1, 0, 9, 9, 0xff, 0xff, 9, 9, 0x00, 0x80, 9, 9, 5, 5];
    assert_eq!(left_channel(&buf, 14), [1, -1, i16::MIN]);
    assert_eq!(left_channel(&buf, 7), [1]);
}

#[test]
fn levels_are_counted() {
    let mut l = Levels::new();
    assert_eq!(l.mean_square(), 0);
    l.count(&[3, -4, 32_000, i16::MIN]);
    assert_eq!((l.out_samples, l.peak, l.clipped), (4, 32_768, 2));
    assert_eq!(l.sum_sq, 9 + 16 + 32_000u64.pow(2) + 32_768u64.pow(2));
    assert_eq!(l.mean_square(), l.sum_sq / 4);
    let mut quiet = Levels::new();
    quiet.count(&[0; 100]);
    assert_eq!((quiet.peak, quiet.sum_sq, quiet.clipped), (0, 0, 0));
}

#[test]
fn a_session_reports_every_second() {
    let mut s = Session::new(10_000);
    assert_eq!(s.poll(10_999, false), (None, Step::Read));
    assert_eq!(s.read_ended(ReadOutcome::Data { bytes: 400 }, 1_000, 10_500), AfterRead::Process);
    s.read_begins(3_500);
    assert_eq!(s.read_ended(ReadOutcome::Timeout, 4_000, 10_600), AfterRead::Again);
    s.levels.count(&[7; 10]);
    let (tick, step) = s.poll(11_000, false);
    let tick = tick.unwrap();
    assert_eq!((tick.bytes, tick.packets, tick.errors, tick.interval_ms), (400, 1, 0, 1_000));
    assert_eq!((tick.gap_max_us, tick.timeouts, tick.levels.out_samples), (2_500, 1, 10));
    assert_eq!(step, Step::Read);
    // A fresh second.
    assert_eq!((s.timeouts, s.gap_max_us, s.levels), (0, 0, Levels::new()));
    assert_eq!(s.poll(12_000, false).0.unwrap().bytes, 0);
}

#[test]
fn silence_ends_a_session_whatever_times_out() {
    let mut s = Session::new(0);
    for t in 0..30 {
        s.read_ended(ReadOutcome::Timeout, t, t as u64 * 100);
    }
    assert_eq!(s.poll(2_999, false).1, Step::Read);
    assert_eq!(s.poll(3_000, false).1, Step::Stalled { silent_ms: 3_000 });
    assert_eq!(s.poll(9_000, true), (None, Step::Disconnected));
    assert_eq!(s.read_ended(ReadOutcome::Data { bytes: 0 }, 5, 2_000), AfterRead::Again);
    assert_eq!(s.last_data_ms, 0);
    assert_eq!(s.read_ended(ReadOutcome::Failed, 5, 2_000), AfterRead::End);
    assert_eq!(s.rx_errors, 1);
}

#[test]
fn counters_survive_a_wrap() {
    let mut s = Session { rx_bytes: u32::MAX - 99, last_bytes: u32::MAX - 99, ..Session::new(0) };
    s.read_ended(ReadOutcome::Data { bytes: 400 }, 1, 1);
    assert_eq!(s.poll(1_000, false).0.unwrap().bytes, 400);
    let mut b = BlockTimes::new();
    b.note(10, 25);
    b.note(10, 5);
    b.note(0, i64::MAX);
    assert_eq!((b.max_us, b.sum_us), (u32::MAX, 14));
}

#[test]
fn one_reader_at_a_time() {
    let mut g = ReaderGate::new();
    assert!(g.enter() && !g.enter());
    g.release();
    assert!(g.enter());
    assert_eq!(g.leave(false), Leave::Quiet);
    for attempt in 1..=30 {
        assert!(g.enter());
        assert_eq!(g.leave(true), Leave::Reopen { attempt });
    }
    assert_eq!(g.leave(true), Leave::GiveUp { attempt: 31 });
    g.reported(0);
    assert_eq!(g.reopen_attempts, 31);
    g.reported(1);
    assert_eq!(g.leave(true), Leave::Reopen { attempt: 1 });
    assert!(needs_close(false, false) && !needs_close(true, false) && !needs_close(false, true));
}

#[test]
fn a_read_is_resampled_to_its_end() {
    assert_eq!(resample_next(0, 10, 4, 1), Some(4));
    assert_eq!(resample_next(4, 10, 6, 2), None);
    assert_eq!(resample_next(4, 10, 0, 0), None);
    assert_eq!(resample_next(4, 10, 0, 3), Some(4));
}

// ── Sending ─────────────────────────────────────────────────────────────────

#[test]
fn samples_are_held_for_four() {
    assert_eq!(hold4(&[0x1234], 2), [0x34, 0x12].repeat(8));
    assert_eq!(hold4(&[-2, 1], 1), [[0xfe, 0xff].repeat(4), [1, 0].repeat(4)].concat());
    assert!(hold4(&[0; 20], 2).iter().all(|&b| b == 0));
}

#[test]
fn a_frame_is_written_to_its_end() {
    let mut f = Frame::new();
    assert_eq!(f.made(500, 240), FrameStep::Write { samples: 240 });
    assert!(f.wrote(true, 30) && f.wrote(true, 20) && !f.wrote(false, 99));
    assert_eq!((f.chunks, f.worst_us), (2, 30));
    assert_eq!((f.made(0, 0), f.made(5, 0)), (FrameStep::Complete, FrameStep::Stalled));
}

#[test]
fn the_probe_takes_the_first_format_that_starts() {
    let mut p = TxProbe::new();
    assert_eq!(p.summary(), "never entered");
    assert_eq!(p.enter(), TxAction::Open);
    assert_eq!(p.summary(), "open !ok");
    assert_eq!(p.opened(0), TxAction::Start { idx: 0 });
    assert_eq!(p.summary(), "open ok, start pending");
    assert_eq!(p.started(0, 0x105), TxAction::Start { idx: 1 });
    assert_eq!(p.started(1, 0), TxAction::WriteSilence { done: 0, ok: 0 });
    let mut a = TxAction::WriteSilence { done: 0, ok: 0 };
    let mut n = 0;
    while let TxAction::WriteSilence { done, ok } = a {
        a = p.wrote(done, ok, if n % 2 == 0 { 0 } else { -1 });
        n += 1;
    }
    assert_eq!((n, a), (20, TxAction::SendFrame { channels: 1 }));
    assert_eq!(p.framed(632, 12_640_900), TxAction::StopAndClose);
    assert_eq!(p.closed(), TxAction::Done);
    assert_eq!(p.summary(), "cfg1 st6 sil 10/20 frame 632ch 12640ms");
}

#[test]
fn the_probe_gives_up_when_nothing_starts() {
    let mut p = TxProbe::new();
    p.enter();
    assert_eq!(p.opened(-1), TxAction::Done);
    assert_eq!(p.stage, 1);
    p.opened(0);
    for idx in 0..3 {
        assert_eq!(p.started(idx, 0x102), TxAction::Start { idx: idx + 1 });
    }
    assert_eq!(p.started(3, -1), TxAction::Close);
    assert_eq!(p.summary(), "start err 0xffffffff");
    let formats: Vec<_> = (0..4).map(|i| tx_config(i)).map(|c| (c.channels, c.bits, c.sample_freq)).collect();
    assert_eq!(formats, [(2, 16, 48_000), (1, 16, 48_000), (2, 16, 24_000), (1, 16, 24_000)]);
    // No silent write was good: no frame.
    let mut p = TxProbe { cfg_idx: 0, ..TxProbe::new() };
    assert_eq!(p.wrote(19, 0, -1), TxAction::StopAndClose);
}

#[test]
fn the_probe_sends_a_cq() {
    let m = probe_message("JL1NIE", "PM95");
    assert_eq!(mfsk::msg::wsjt77::unpack77(&m).as_deref(), Some("CQ JL1NIE PM95"));
    assert_eq!(probe_message("NOT A CALL", "PM95"), [0u8; 77]);
}

// ── Descriptors ─────────────────────────────────────────────────────────────

#[test]
fn a_configuration_is_walked() {
    let mut bytes = vec![9, 2, 0, 0, 4, 1, 0, 0x80, 50];
    bytes.extend([9, 4, 3, 1, 1, 0x01, 0x02, 0x00, 0]);
    bytes.extend([11, 0x24, 0x02, 1, 2, 2, 16, 1, 0x80, 0xbb, 0x00]);
    bytes.extend([9, 5, 0x83, 0x0d, 0xc4, 0x00, 1, 0, 0]);
    bytes.extend([14, 0x24, 0x02, 1, 1, 2, 16, 0, 0x40, 0x1f, 0x00, 0x80, 0xbb, 0x00]);
    let records = walk_config(&bytes);
    assert_eq!(
        records,
        [
            Record::Interface { num: 3, alt: 1, endpoints: 1, class: 1, sub: 2, proto: 0 },
            Record::Format { ftype: 1, channels: 2, subframe: 2, bits: 16, continuous: false, freqs: vec![48_000] },
            Record::Endpoint { addr: 0x83, attr: 0x0d, max_packet: 196, interval: 1 },
            Record::Format { ftype: 1, channels: 1, subframe: 2, bits: 16, continuous: true, freqs: vec![8_000, 48_000] },
        ]
    );
    let lines: Vec<String> = records.iter().map(descriptor::line).collect();
    assert!(lines[0].starts_with("uac:     iface 3 alt 1: class 0x01/0x02/0x00 1 endpoint(s)"), "{}", lines[0]);
    assert!(lines[0].ends_with("(AUDIO STREAMING)"));
    assert!(lines[2].starts_with("uac:       ep 0x83 IN  "), "{}", lines[2]);
    assert!(lines[1].contains("48000") && lines[3].contains("8000"));
    // A tail that is cut off is not read.
    bytes.extend([9, 4, 0]);
    assert_eq!(walk_config(&bytes).len(), 4);
    assert!(walk_config(&[0, 4, 1]).is_empty());
    assert!(walk_config(&[]).is_empty());
}

/// A list that names more rates than the record holds.
#[test]
fn rates_are_read_as_far_as_they_go() {
    let short = [11, 0x24, 0x02, 1, 2, 2, 16, 9, 0x80, 0xbb, 0x00];
    match &walk_config(&short)[0] {
        Record::Format { freqs, .. } => assert_eq!(freqs, &[48_000]),
        other => panic!("{other:?}"),
    }
}

// ── The host ────────────────────────────────────────────────────────────────

#[test]
fn the_level_is_there_once_there_were_samples() {
    let mut s = UacStatus::new();
    assert_eq!(status(&s), (UacState::Off, 0, None));
    s.set_state(UacState::Streaming);
    s.measured(12_000, 423);
    assert_eq!(status(&s), (UacState::Streaming, 12_000, Some(-423)));
    s.measured(0, 5);
    assert_eq!(status(&s).2, None);
}

#[test]
fn events_are_counted_and_acted_on() {
    let mut c = UsbCounters::new();
    assert_eq!(usb_counters(&c), (-1, -1, 0, 0));
    let rx = DriverEvent::RxConnected { addr: 1, iface_num: 3 };
    let tx = DriverEvent::TxConnected { addr: 1, iface_num: 2 };
    c.note_event(rx);
    c.note_event(tx);
    c.note_err(7);
    c.note_counts(1, 2);
    assert_eq!(usb_counters(&c), (1, 2, 2, 7));
    assert_eq!((c.rx_iface, c.tx_iface), (3, 2));
    let mut g = ReaderGate::new();
    assert_eq!(app_action(&mut g, rx, false), AppAction::OpenRx { addr: 1, iface_num: 3 });
    assert_eq!(app_action(&mut g, rx, false), AppAction::Duplicate);
    assert_eq!(app_action(&mut g, tx, false), AppAction::IgnoreTx);
    assert_eq!(app_action(&mut g, tx, true), AppAction::ProbeTx { addr: 1, iface_num: 2 });
    assert_eq!(
        device_report(&c, &TxProbe::new()),
        "uac: usb_host_lib_info — num_devices=1 num_clients=2 | audio IN iface 3 | audio OUT iface 2 | tx never entered"
    );
    assert!(device_report(&UsbCounters::new(), &TxProbe::new()).contains("num_devices=-1 num_clients=-1 | audio IN never"));
}

#[test]
fn a_step_that_fails_undoes_the_ones_before() {
    assert_eq!(rx_next(RxStep::Open, true), RxNext::Do { step: RxStep::Start });
    assert_eq!(rx_next(RxStep::Start, true), RxNext::Do { step: RxStep::SpawnReader });
    assert_eq!(rx_next(RxStep::SpawnReader, true), RxNext::Streaming);
    assert_eq!(rx_next(RxStep::Open, false), RxNext::Fail { stop: false, close: false });
    assert_eq!(rx_next(RxStep::Start, false), RxNext::Fail { stop: false, close: true });
    assert_eq!(rx_next(RxStep::SpawnReader, false), RxNext::Fail { stop: true, close: true });
}

#[test]
fn the_host_comes_up_step_by_step() {
    let mut step = HostStep::Channel;
    let mut n = 1;
    while let HostNext::Do { step: next } = host_next(step, true) {
        step = next;
        n += 1;
    }
    assert_eq!((n, host_next(step, true)), (5, HostNext::Up));
    assert_eq!(host_next(HostStep::InstallHost, false), HostNext::Fail { unblock: false, uninstall: false });
    assert_eq!(host_next(HostStep::EventsTask, false), HostNext::Fail { unblock: false, uninstall: true });
    assert_eq!(host_next(HostStep::InstallClassDriver, false), HostNext::Fail { unblock: true, uninstall: true });
    let mut h = HostState::new();
    assert!(!host_installed(&h));
    h.up();
    assert!(host_installed(&h));
}

#[test]
fn a_reason_is_kept_if_it_fits() {
    assert_eq!(host_failed("no port").as_str(), "start_host FAILED: no port");
    let long = "x".repeat(77);
    assert_eq!(host_failed(&long).as_str(), format!("start_host FAILED: {long}"));
    assert_eq!(host_failed(&"x".repeat(78)).as_str(), "start_host FAILED: ");
}

#[test]
fn the_wait_for_the_log_is_bounded() {
    assert_eq!(sink_wait(false, 0, false), SinkWait::Go);
    assert_eq!(sink_wait(true, 0, true), SinkWait::Go);
    let (mut waited, mut looks) = (0, 0);
    while let SinkWait::Sleep { waited_ms } = sink_wait(true, waited, false) {
        waited = waited_ms;
        looks += 1;
    }
    assert_eq!((waited, looks), (8_000, 32));
    assert_eq!(sink_wait(true, waited, true), SinkWait::GoWithout);
}

#[test]
fn devices_are_listed_a_few_times() {
    let mut p = DeviceProbe::new();
    assert_eq!(p.look(0), Look { report: true, list_devices: false });
    for _ in 0..5 {
        assert!(!p.look(0).report);
    }
    assert!(p.look(0).report);
    for n in 1..=4 {
        assert_eq!(p.look(n), Look { report: true, list_devices: n <= 3 });
    }
}

#[test]
fn the_link_tells_a_fault_from_a_choice() {
    let bits = PowerBits { boost_en: 0x80, usb_otg_en: 0x20, bus_out_en: 0x02 };
    let board = BoardInfo {
        wifi_rssi: Some(-60),
        expander_ok: true,
        battery_mv: None,
        vbus_mv: Some(5_012),
        clock_set: true,
        grid: GridLock::Air,
        grid_src: GridSource::AirDt,
    };
    let mut uac = UacStatus::new();
    let mut c = UsbCounters::new();
    let mut host = HostState::new();
    let off = PowerState { tried_vbus: false, p0: 0xff, p1: 0xff };
    let on = PowerState { tried_vbus: true, p0: 0x22, p1: 0x00 };
    let l = link_info(&uac, &c, &host, &off, &bits, &board);
    assert_eq!((l.usb, l.devices, l.vbus), (UsbLink::Peripheral, 0, None));
    assert_eq!(l.board, board);
    let l = link_info(&uac, &c, &host, &on, &bits, &board);
    assert_eq!((l.usb, l.vbus), (UsbLink::NoHost, Some((false, true, true))));
    host.up();
    c.note_counts(12, 0);
    assert_eq!(link_info(&uac, &c, &host, &on, &bits, &board).devices, 9);
    for (state, link) in [
        (UacState::Off, UsbLink::Waiting),
        (UacState::Waiting, UsbLink::Waiting),
        (UacState::Streaming, UsbLink::Streaming),
        (UacState::Error, UsbLink::Error),
    ] {
        uac.set_state(state);
        assert_eq!(link_info(&uac, &c, &host, &on, &bits, &board).usb, link);
    }
}
