use mfsk::uac::acquisition::{
    acquisition_fill, acquisition_start_in_slot, arm_acquisition, disarm_acquisition,
    take_acquisition_audio, Acquisition, ACQUIRE_RING_CAP,
};
use mfsk::uac::sim::{
    loop_len, samples_to_next_slot_12k_from_us, sim_feeding, sim_samples, start_at, stepped_time,
    ticks_until, waiting_for_clock, SimFeed, SimSource, SimStatus,
};
use mfsk::uac::sink::{set_audio_sink, AudioSink, SinkSlot};
use mfsk::uac::stream::Readings;
use mfsk::uac::slot_grid::{
    boundary_error_ms, fold, grid_fix_seeded, grid_vs_sim, seed_grid_fix_us, Ft8ChunkSink,
    GridFixSeed, GridLock, GridPhase, LiveFix, LivePhase, Shifts, SlotEnd, SlotPlan, CHUNK_LEN,
    SLOT_SAMPLES_12K,
};

// ── Chunks and slots ────────────────────────────────────────────────────────

/// All chunks of a block, and where slots ended.
fn push(sink: &mut Ft8ChunkSink, block: &[i16]) -> (Vec<Vec<i16>>, Vec<SlotEnd>) {
    let (mut chunks, mut ends, mut at) = (Vec::new(), Vec::new(), 0);
    while let Some(cut) = sink.next_cut(block, at) {
        at = cut.next;
        chunks.push(cut.chunk);
        ends.extend(cut.end);
    }
    (chunks, ends)
}

#[test]
fn a_slot_is_cut_into_chunks() {
    let mut sink = Ft8ChunkSink::new();
    let block: Vec<i16> = (0..1_000).map(|i| i as i16).collect();
    let (mut stream, mut sent) = (Vec::new(), Vec::new());
    let mut ends = Vec::new();
    for _ in 0..181 {
        stream.extend(block.iter().copied());
        let (chunks, e) = push(&mut sink, &block);
        ends.extend(e);
        for c in chunks {
            assert!(c.len() <= CHUNK_LEN);
            sent.extend(c);
        }
    }
    assert_eq!(
        ends,
        [SlotEnd {
            wav_idx: 0,
            total_samples: SLOT_SAMPLES_12K,
            boundary_at: SLOT_SAMPLES_12K as u32,
            phase: None
        }]
    );
    assert_eq!(sink.slot_index(), 1);
    // What was handed on and what is held is the stream.
    assert_eq!(sent, stream[..sent.len()]);
    assert_eq!(sent.len() + sink.in_slot(), 181_000);
    assert_eq!(sink.in_slot(), 1_000);
}

/// The boundary falls on the sample, in the middle of a chunk if need be.
#[test]
fn a_slot_ends_on_its_target() {
    let mut sink = Ft8ChunkSink::new();
    let lock = sink.anchor(500, Some(1_234), &GridFixSeed::new(), false);
    assert_eq!(lock, Some(GridLock::Rtc));
    assert_eq!(sink.target(), 1_734);
    assert!(sink.anchored());
    // Once only.
    assert_eq!(sink.anchor(500, Some(7), &GridFixSeed::new(), true), None);
    let (chunks, ends) = push(&mut sink, &[1; 3_000]);
    assert_eq!(chunks.iter().map(Vec::len).collect::<Vec<_>>(), [1_200, 534, 1_200]);
    assert_eq!((ends.len(), ends[0].total_samples), (1, 1_734));
    assert_eq!(sink.remaining_us(), (180_000 - 1_200) * 1_000_000 / 12_000);
}

#[test]
fn an_anchor_waits_for_the_clock() {
    let mut sink = Ft8ChunkSink::new();
    assert_eq!(sink.anchor(500, None, &GridFixSeed::new(), true), None);
    assert!(!sink.anchored());
    assert_eq!(sink.anchor(500, Some(179_900), &GridFixSeed::new(), true), Some(GridLock::Ntp));
    // The boundary before is still ahead of what has come in.
    assert_eq!(sink.target(), 400);
}

#[test]
fn a_fix_moves_the_anchor() {
    let mut seed = GridFixSeed::new();
    assert!(!grid_fix_seeded(&seed));
    seed_grid_fix_us(&mut seed, -250_000);
    assert!(grid_fix_seeded(&seed));
    let mut sink = Ft8ChunkSink::new();
    sink.anchor(0, Some(10_000), &seed, false);
    assert_eq!(sink.target(), 7_000);
    let mut sink = Ft8ChunkSink::new();
    sink.anchor(0, Some(1_000), &seed, false);
    assert_eq!(sink.target(), 178_000);
}

fn plan(disciplined: bool, remain: Option<usize>, phase: Option<i64>, acq: i32, air: i32) -> (usize, SlotPlan, Shifts) {
    let mut sink = Ft8ChunkSink::new();
    let mut shifts = Shifts { acquisition: acq, air };
    let p = sink.plan(disciplined, remain, phase, &mut shifts);
    (sink.target(), p, shifts)
}

#[test]
fn utc_corrects_by_phase_inside_the_dead_zone() {
    for (remain, phase, target) in [
        (0, None, 180_000),
        (2_400, Some(5), 180_000),
        (100, Some(6), 179_994),
        (177_600, Some(-6), 180_006),
        (0, Some(-5_000), 182_400),
        (0, Some(5_000), 177_600),
    ] {
        let (t, p, _) = plan(true, Some(remain), phase, 0, 0);
        assert_eq!(t, target, "{remain} {phase:?}");
        assert!(p.utc_took_over);
    }
}

#[test]
fn utc_ends_the_slot_on_the_clock_outside_it() {
    assert_eq!(plan(true, Some(2_401), Some(9), 0, 0).0, 2_401);
    let (t, p, s) = plan(true, Some(90_000), None, 11, 22);
    assert_eq!((t, p.lock, p.drift_ms), (90_000, Some(GridLock::Ntp), Some(7_500)));
    // The air's shift is dropped, an acquisition's is kept.
    assert_eq!((s.acquisition, s.air), (11, 0));
    assert_eq!(plan(true, Some(174_000), None, 0, 0).1.drift_ms, Some(-500));
    assert_eq!(plan(true, Some(2_500), None, 0, 0).1.drift_ms, None);
    assert_eq!(plan(true, None, Some(50), 0, 0).0, 180_000);
}

#[test]
fn an_acquisition_only_shortens() {
    for (shift, target) in
        [(2_400, 180_000), (-2_400, 180_000), (2_401, 2_401), (90_000, 90_000), (-90_000, 90_000), (-179_000, 30_000)]
    {
        let (t, _, s) = plan(false, None, None, shift, 5);
        assert_eq!(t, target, "{shift}");
        assert_eq!(s.acquisition, 0);
    }
}

#[test]
fn the_air_moves_a_slot_within_bounds() {
    for (shift, target) in [(0, 180_000), (120, 180_120), (-120, 179_880), (-150_000, 60_000), (50_000, 200_000)] {
        assert_eq!(plan(false, Some(5), Some(9), 0, shift).0, target, "{shift}");
    }
    let (_, p, s) = plan(false, None, None, 0, 120);
    assert_eq!((p.lock, s.air), (None, 0));
    assert_eq!(plan(false, None, None, 90, 120).1.lock, Some(GridLock::Air));
}

#[test]
fn utc_says_once_that_it_took_over() {
    let mut sink = Ft8ChunkSink::new();
    let mut shifts = Shifts::new();
    assert!(sink.plan(true, Some(0), None, &mut shifts).utc_took_over);
    assert!(!sink.plan(true, Some(0), None, &mut shifts).utc_took_over);
    shifts.acquisition = 4;
    assert_eq!(shifts.take_acquisition_shift_12k(), 4);
    assert_eq!(shifts.take_acquisition_shift_12k(), 0);
    assert_eq!(shifts.take_bootstrap_slot_shift_12k(), 0);
}

#[test]
fn the_least_phase_of_a_slot_counts() {
    let mut p = GridPhase::new();
    assert_eq!(p.take(), None);
    p.observe(1_000, 900, 180_000);
    p.observe(1_000, 950, 180_000);
    p.observe(1_000, 980, 180_000);
    p.observe(10, 179_995, 180_000);
    assert_eq!(p.take(), Some(15));
    assert_eq!(p.take(), None);
    let mut sink = Ft8ChunkSink::new();
    sink.observe(1_200, Some(178_650)); // not anchored yet
    sink.anchor(0, Some(180_000), &GridFixSeed::new(), false);
    sink.observe(1_200, Some(178_700));
    sink.observe(1_200, None);
    let (_, ends) = push(&mut sink, &[0; 180_000]);
    assert_eq!(ends[0].phase, Some(100));
}

#[test]
fn folding_finds_the_nearer_turn() {
    for (d, want) in [(0, 0), (90_000, 90_000), (90_001, -89_999), (-1, -1), (360_007, 7), (-270_000, 90_000)] {
        assert_eq!(fold(d, 180_000), want);
    }
    assert_eq!(boundary_error_ms(15_000 * 7 + 40), 40);
    assert_eq!(boundary_error_ms(15_000 * 7 - 40), -40);
}

#[test]
fn the_grid_is_compared_with_a_recording() {
    assert_eq!(grid_vs_sim(u32::MAX, 5), None);
    assert_eq!(grid_vs_sim(100, 180_130), Some(30));
    assert_eq!(grid_vs_sim(u32::MAX - 9, 180_000 - 30), Some(-20));
}

#[test]
fn the_live_phase_is_kept_now_and_then() {
    let mut live = LivePhase::new();
    assert_eq!(live.note(GridLock::Ntp, 4, 0, Some(1_000)), None);
    assert_eq!(live.note(GridLock::Air, 4, 0, None), None);
    assert_eq!(
        live.note(GridLock::Air, -4, 7, Some(9_999)),
        Some(LiveFix { offset_us: -4_000, period_s: 15, epoch_at_fix: 9 })
    );
    assert_eq!(live.note(GridLock::Air, 4, 26, Some(9_999)), None);
    assert!(live.note(GridLock::Air, 4, 27, Some(9_999)).is_some());
}

/// A block goes to the capture, to the anchor and to the chunks, and stops at
/// each boundary.
#[test]
fn a_block_is_passed_on_whole() {
    let mut sink = Ft8ChunkSink::new();
    let mut capture = Acquisition::new();
    arm_acquisition(&mut capture);
    let block: Vec<i16> = (0..4_000).map(|i| i as i16).collect();
    let now = Readings { remain: Some(179_000), clock: Some(179_000), disciplined: false };
    // The clock's boundary was a thousand samples before the block's end.
    let first = sink.push_samples(&mut capture, &GridFixSeed::new(), now, &block);
    assert_eq!(first.lock, Some(GridLock::Rtc));
    assert_eq!(first.chunks.concat(), block[..3_000]);
    assert_eq!(first.chunks.iter().map(Vec::len).collect::<Vec<_>>(), [1_200, 1_200, 600]);
    let end = first.end.unwrap();
    assert_eq!((end.wav_idx, end.total_samples, end.boundary_at, end.phase), (0, 3_000, 3_000, Some(0)));
    sink.plan(false, None, None, &mut Shifts::new());
    let rest = sink.go_on(&block, first.next);
    assert_eq!((rest.chunks.len(), rest.end, rest.next, sink.in_slot()), (0, None, 4_000, 1_000));
    // What is held comes out in front of the next block.
    let now = Readings { remain: Some(177_000), clock: None, disciplined: true };
    let more = sink.push_samples(&mut capture, &GridFixSeed::new(), now, &[7; 300]);
    assert_eq!(more.lock, None);
    assert_eq!(more.chunks, [[&block[3_000..], &[7; 200]].concat()]);
    assert_eq!(sink.in_slot(), 1_300);
    assert_eq!(take_acquisition_audio(&mut capture, 0).unwrap(), [&block[..], &[7; 300]].concat());
    assert_eq!(acquisition_start_in_slot(&capture), Some(0));
}

/// Over many blocks, with the clock and the shifts coming and going: the
/// audio goes out whole and in order, each boundary counts the samples since
/// the last one, and boundaries are numbered.
#[test]
fn the_stream_goes_out_whole() {
    let mut sink = Ft8ChunkSink::new();
    let mut capture = Acquisition::new();
    let (mut came, mut went, mut since, mut ends) = (Vec::new(), Vec::new(), 0, Vec::new());
    for i in 0..600usize {
        let block: Vec<i16> = (0..1_733).map(|k| (i * 1_733 + k) as i16).collect();
        came.extend_from_slice(&block);
        let remain = (i % 3 == 1).then_some(i * 91 % SLOT_SAMPLES_12K);
        let now = Readings { remain, clock: remain.map(|r| r as i64), disciplined: i > 300 };
        let mut pushed = sink.push_samples(&mut capture, &GridFixSeed::new(), now, &block);
        loop {
            for chunk in &pushed.chunks {
                assert!((1..=CHUNK_LEN).contains(&chunk.len()));
                since += chunk.len();
                went.extend_from_slice(chunk);
            }
            let Some(end) = pushed.end else { break };
            assert_eq!((end.wav_idx, end.total_samples), (ends.len(), since));
            ends.push(since);
            since = 0;
            let mut shifts = Shifts { acquisition: 40_000 - i as i32 * 150, air: -2_000 };
            sink.plan(now.disciplined, remain, end.phase, &mut shifts);
            pushed = sink.go_on(&block, pushed.next);
        }
    }
    assert!(ends.len() > 5);
    assert_eq!(went, came[..went.len()]);
    assert!(came.len() - went.len() < CHUNK_LEN);
}

/// Without a clock and without a shift every slot is a whole one.
#[test]
fn slots_are_whole_if_left_alone() {
    let mut sink = Ft8ChunkSink::new();
    let mut capture = Acquisition::new();
    let now = Readings { remain: None, clock: Some(77), disciplined: false };
    let mut totals = Vec::new();
    for _ in 0..30 {
        let block = [1i16; 20_001];
        let mut pushed = sink.push_samples(&mut capture, &GridFixSeed::new(), now, &block);
        while let Some(end) = pushed.end {
            totals.push((end.wav_idx, end.total_samples));
            sink.plan(false, None, end.phase, &mut Shifts::new());
            pushed = sink.go_on(&block, pushed.next);
        }
    }
    assert_eq!(totals, [(0, 180_000), (1, 180_000), (2, 180_000)]);
}

// ── A cold acquisition's capture ────────────────────────────────────────────

#[test]
fn a_capture_is_the_first_audio() {
    let mut a = Acquisition::new();
    a.feed(&[9; 50], 3);
    assert_eq!((acquisition_fill(&a, 100), acquisition_start_in_slot(&a)), (None, None));
    arm_acquisition(&mut a);
    a.feed(&[1, 2, 3], 777);
    a.feed(&[4, 5], 780);
    arm_acquisition(&mut a); // already armed: nothing is lost
    assert_eq!(acquisition_fill(&a, 100), Some((5, 100)));
    assert_eq!(acquisition_start_in_slot(&a), Some(777));
    assert_eq!(take_acquisition_audio(&mut a, 6), None);
    assert_eq!(take_acquisition_audio(&mut a, 5), Some(vec![1, 2, 3, 4, 5]));
    // Taking disarms.
    a.feed(&[6], 0);
    assert_eq!(acquisition_fill(&a, 100), None);
    arm_acquisition(&mut a);
    a.feed(&[7], 1);
    disarm_acquisition(&mut a);
    assert_eq!(acquisition_fill(&a, 1), None);
}

#[test]
fn a_capture_never_outgrows_its_room() {
    let mut a = Acquisition::new();
    arm_acquisition(&mut a);
    let block = vec![1i16; 200_000];
    a.feed(&block, 0);
    a.feed(&block, 0);
    a.feed(&block, 0);
    assert_eq!(take_acquisition_audio(&mut a, 0).unwrap().len(), ACQUIRE_RING_CAP);
}

#[test]
fn the_sink_is_the_last_one_set() {
    struct Count(usize);
    impl AudioSink for Count {
        fn push_samples(&mut self, samples_12k_mono: &[i16]) {
            self.0 += samples_12k_mono.len();
        }
    }
    let mut slot: SinkSlot<Count> = SinkSlot::new();
    assert!(slot.sink.is_none());
    set_audio_sink(&mut slot, Count(0));
    set_audio_sink(&mut slot, Count(10));
    slot.sink.as_mut().unwrap().push_samples(&[0; 5]);
    assert_eq!(slot.sink.unwrap().0, 15);
}

// ── Recordings ──────────────────────────────────────────────────────────────

fn pcm(n: usize) -> &'static [u8] {
    let bytes: Vec<u8> = (0..n).flat_map(|i| (i as i16).to_le_bytes()).collect();
    bytes.leak()
}

#[test]
fn a_recording_is_read_low_byte_first() {
    assert_eq!(sim_samples(SimSource::Pcm(&[0x34, 0x12, 0xff, 0xff, 0x00, 0x80, 7])), [0x1234, -1, i16::MIN]);
    let mut wav = vec![9u8; 44];
    wav.extend([1, 0, 2, 0]);
    assert_eq!(sim_samples(SimSource::Wav(wav.leak())), [1, 2]);
}

#[test]
fn a_pass_is_whole_slots() {
    for (n, len) in [(0, 0), (999, 999), (1_000, 1_000), (1_999, 1_000), (2_500, 2_000)] {
        assert_eq!(loop_len(n, 1_000), len);
    }
}

#[test]
fn a_recording_starts_on_a_boundary() {
    assert_eq!(start_at(5, Some(14_000_000), 180_000, 0), 5 + 1_000_000);
    assert_eq!(start_at(5, Some(30_000_000), 180_000, 0), 5 + 15_000_000);
    assert_eq!(start_at(5, None, 180_000, 12), 5 + 1_000);
    assert_eq!(samples_to_next_slot_12k_from_us(14_999_000, 15_000), 12);
    assert_eq!(samples_to_next_slot_12k_from_us(15_000_000, 15_000), 180_000);
    assert!(waiting_for_clock(true, 9_999_999));
    assert!(!waiting_for_clock(true, 10_000_000) && !waiting_for_clock(false, 0));
}

#[test]
fn sleeping_is_never_too_short() {
    assert_eq!(ticks_until(0, 10_000), None);
    assert_eq!(ticks_until(-5, 10_000), None);
    assert_eq!(ticks_until(1, 10_000), Some(1));
    assert_eq!(ticks_until(10_000, 10_000), Some(1));
    assert_eq!(ticks_until(10_001, 10_000), Some(2));
}

#[test]
fn a_step_of_the_clock_carries() {
    assert_eq!(stepped_time(100, 999_000, 1), (101, 0));
    assert_eq!(stepped_time(100, 500, -1), (99, 999_500));
    assert_eq!(stepped_time(0, 0, -1_500), (-1, -500_000));
}

#[test]
fn blocks_follow_each_other() {
    let mut feed = SimFeed::new(SimSource::Pcm(pcm(700)), 600, 0, 0, false, None);
    let mut got = Vec::new();
    for _ in 0..6 {
        got.extend(feed.next_block());
    }
    // Two passes of 600: 256, 256 and 88 samples each.
    let pass: Vec<i16> = (0..600).collect();
    assert_eq!(got, [pass.clone(), pass].concat());
    assert_eq!(feed.due_us(), 1_200 * 1_000_000 / 12_000);
    assert_eq!(feed.pass_start(), 600);
}

#[test]
fn a_feed_goes_back_on_the_clock() {
    let mut feed = SimFeed::new(SimSource::Pcm(pcm(12_000)), 12_000, 0, 0, false, None);
    assert!(feed.wants_realign());
    // Within a millisecond nothing moves.
    assert_eq!(feed.realign(12), 0);
    assert_eq!(feed.due_us(), 0);
    // Early: wait.
    assert_eq!(feed.realign(120), 120);
    assert_eq!(feed.due_us(), 10_000);
    // Late: skip.
    assert_eq!(feed.realign(11_900), -100);
    assert_eq!(feed.next_block()[0], 100);
    assert!(!feed.wants_realign());
    assert_eq!(feed.pass_start(), 0u32.wrapping_sub(100));
    assert_eq!(feed.clock_when_due(feed.due_us() + 30, 1_000), 970);
    assert_eq!(feed.clock_when_due(feed.due_us() - 30, 1_000), 1_000);
}

#[test]
fn a_feed_without_a_clock_is_left_alone() {
    let feed = SimFeed::new(SimSource::Pcm(pcm(12_000)), 12_000, 0, 0, true, None);
    assert!(!feed.wants_realign());
    // Longer than a slot: nothing to line up either.
    assert!(!SimFeed::new(SimSource::Pcm(pcm(24_000)), 12_000, 0, 0, false, None).wants_realign());
}

#[test]
fn the_clock_is_stepped_once() {
    let mut feed = SimFeed::new(SimSource::Pcm(pcm(10)), 10, 0, 1_000, false, Some(-700));
    assert_eq!(feed.clock_step(90_000_999), None);
    assert_eq!(feed.clock_step(90_001_000), Some(-700));
    assert_eq!(feed.clock_step(99_000_000), None);
    assert!(!sim_feeding(&SimStatus::new()));
    assert_eq!(SimStatus::new().pass_start, u32::MAX);
}
