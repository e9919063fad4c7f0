use mfsk::engine::fine_sync::{bin_window, fine_sync_12k, span_start, Place, BIN, NB, STAGE_B_STEPS};
use mfsk::engine::search::{best_place, pick};
use mfsk::engine::sweep::{Block, Ft4CoarseSweep, Stripe};
use mfsk::engine::sync2d::{
    bin_base, block_window, fst4_sync_search, ft4_sync_search, ft4_sync_search_window_binned,
    ft4_sync_search_window_with, phase_index, Cell,
};
use mfsk::engine::tx::{
    chunks_of, codeword_to_itone, data_chunks, info_to_tones, message_info, message_to_tones,
    tones_of, Layout, Protocol, SyncBlock,
};
use mfsk::engine::waveform::{
    check_tones, fst4_120_gfsk, fst4_15_gfsk, fst4_300_gfsk, fst4_30_gfsk, fst4_60a_gfsk,
    ft4_gfsk, ft8_gfsk, gfsk_at, synth_len, Ft8, FskWaveform, GfskCfg, Waveform, Wspr,
};

// ── A frame laid out like FT8's, with a code that only pads ─────────────────

const COSTAS: [u8; 7] = [3, 1, 4, 0, 6, 5, 2];
const NN: usize = 79;
const NSPS: usize = 1920;

fn ft8_layout() -> Layout {
    Layout {
        n_symbols: 79,
        bits_per_symbol: 3,
        gray_map: vec![0, 1, 3, 2, 5, 6, 4, 7],
        sync_blocks: [0u32, 36, 72]
            .iter()
            .map(|&s| SyncBlock { start_symbol: s, pattern: COSTAS.to_vec() })
            .collect(),
        interleave: None,
        scramble: None,
        info_bits: 91,
    }
}

/// Lengths are FT8's; the last 14 information bits count the ones before
/// them, and the codeword repeats the information bits.
struct Padded;

impl Protocol for Padded {
    fn layout() -> Layout {
        ft8_layout()
    }

    fn append_crc(mut info: Vec<u8>) -> Option<Vec<u8>> {
        if info.len() != 91 {
            return None;
        }
        let ones = info[..77].iter().filter(|&&b| b == 1).count();
        for k in 0..14 {
            info[77 + k] = ((ones >> (13 - k)) & 1) as u8;
        }
        Some(info)
    }

    fn encode(info: &Vec<u8>) -> Vec<u8> {
        (0..174).map(|k| info[k % info.len()]).collect()
    }
}

#[test]
fn tone_sequence_length() {
    let msg = [0u8; 77];
    let itone = message_to_tones::<Padded>(&msg);
    assert_eq!(itone.len(), NN);
}

#[test]
fn all_tones_in_range() {
    let msg = [1u8; 77];
    let itone = message_to_tones::<Padded>(&msg);
    for &t in itone.iter() {
        assert!(t < 8, "tone {t} out of range");
    }
    assert!(check_tones::<Ft8>(&itone));
}

#[test]
fn costas_positions_correct() {
    let msg = [0u8; 77];
    let itone = message_to_tones::<Padded>(&msg);
    for offset in [0usize, 36, 72] {
        for (i, &c) in COSTAS.iter().enumerate() {
            assert_eq!(itone[offset + i], c, "Costas mismatch at symbol {}", offset + i);
        }
    }
}

#[test]
fn waveform_length() {
    let msg = [0u8; 77];
    let itone = message_to_tones::<Padded>(&msg);
    assert!(check_tones::<Ft8>(&itone));
    assert_eq!(synth_len::<Ft8>(12_000, NSPS), NN * NSPS);
}

#[test]
fn synthesizes_162_symbol_buffer_at_12k() {
    let symbols = [0u8; 162];
    assert!(check_tones::<Wspr>(&symbols));
    assert_eq!(synth_len::<Wspr>(12_000, 8192), 8192 * 162);
}

fn gfsk_matches(cfg: GfskCfg, nsps: usize, bt: f32, hmod: f32) {
    assert_eq!(cfg.sample_rate, 12_000);
    assert_eq!(cfg.samples_per_symbol, nsps);
    assert_eq!(cfg.bt_tenths as f32 / 10.0, bt);
    assert_eq!(cfg.hmod_tenths as f32 / 10.0, hmod);
    assert_eq!(cfg.ramp_samples, nsps / 8);
}

#[test]
fn gfsk_configs_match_their_protocols() {
    gfsk_matches(ft8_gfsk(), 1_920, 2.0, 1.0);
    gfsk_matches(ft4_gfsk(), 576, 1.0, 1.0);
    gfsk_matches(fst4_15_gfsk(), 720, 2.0, 1.0);
    gfsk_matches(fst4_30_gfsk(), 1_680, 2.0, 1.0);
    gfsk_matches(fst4_60a_gfsk(), 3_888, 2.0, 1.0);
    gfsk_matches(fst4_120_gfsk(), 8_200, 2.0, 1.0);
    gfsk_matches(fst4_300_gfsk(), 21_504, 2.0, 1.0);
    assert!(matches!(Ft8::shape().waveform, Waveform::Gfsk(c) if c == ft8_gfsk()));
}

/// Four times the rate is four times the samples, with the same pulse.
#[test]
fn gfsk_scales_with_the_rate() {
    let cfg = ft8_gfsk();
    let at = gfsk_at(&cfg, 48_000, 4 * NSPS);
    assert_eq!(at.samples_per_symbol, 4 * cfg.samples_per_symbol);
    assert_eq!(at.ramp_samples, 4 * cfg.ramp_samples);
    assert_eq!(at.bt_tenths, cfg.bt_tenths);
    assert_eq!(gfsk_at(&cfg, 12_000, 7), cfg);
    assert_eq!(synth_len::<Ft8>(48_000, 4 * NSPS), 4 * synth_len::<Ft8>(12_000, NSPS));
}

#[test]
fn tones_that_do_not_fit_are_refused() {
    assert!(!check_tones::<Ft8>(&[0u8; 78]));
    assert!(!check_tones::<Ft8>(&[8u8; 79]));
    assert!(check_tones::<Ft8>(&[7u8; 79]));
}

#[test]
fn data_lies_between_the_blocks() {
    assert_eq!(chunks_of(&ft8_layout()), [(7, 29), (43, 29)]);
    assert_eq!(data_chunks::<Padded>(), [(7, 29), (43, 29)]);
    let mut none = ft8_layout();
    none.sync_blocks.clear();
    assert_eq!(chunks_of(&none), [(0, 79)]);
}

/// Bits go to symbols three at a time, through the Gray map, most
/// significant first.
#[test]
fn bits_become_tones_through_the_gray_map() {
    let mut cw = vec![0u8; 174];
    cw[0] = 1; // 100 in the first data symbol
    cw[4] = 1; // 010 in the second
    cw[29 * 3 + 2] = 1; // 001 in the first symbol of the second stretch
    let t = tones_of(&ft8_layout(), &cw);
    assert_eq!(t[7], 5);
    assert_eq!(t[8], 3);
    assert_eq!(t[9], 0);
    assert_eq!(t[43], 1);
    assert_eq!(t, codeword_to_itone::<Padded>(&cw));
}

#[test]
fn an_interleaver_moves_the_bits() {
    let mut l = ft8_layout();
    l.interleave = Some((0..174).map(|j| 173 - j).collect());
    let mut cw = vec![0u8; 174];
    cw[173] = 1;
    assert_eq!(tones_of(&l, &cw)[7], 5);
}

/// The message is scrambled before the checksum is taken.
#[test]
fn a_scrambler_is_added_to_the_message() {
    let mut l = ft8_layout();
    l.scramble = Some(vec![1, 0, 1]);
    let mut msg = [0u8; 77];
    msg[2] = 1;
    let info = message_info(&l, &msg);
    assert_eq!(&info[..4], &[1, 0, 0, 0]);
    assert_eq!(info.len(), 91);
    assert!(info[77..].iter().all(|&b| b == 0));
    let plain = message_info(&ft8_layout(), &[1u8; 77]);
    let with = Padded::append_crc(plain).unwrap();
    assert_eq!(&with[84..], &[1, 0, 0, 1, 1, 0, 1]);
    assert_eq!(message_to_tones::<Padded>(&[1u8; 77]), info_to_tones::<Padded>(&with));
}

// ── Searching ───────────────────────────────────────────────────────────────

#[test]
fn the_first_of_the_best_is_picked() {
    assert_eq!(pick(&[3, 9, 9, 2], i64::MIN), Some(1));
    assert_eq!(pick(&[3, 9, 9, 2], 9), None);
    assert_eq!(pick(&[], 0), None);
    assert_eq!(pick(&[i64::MIN], i64::MIN), None);
    let (p, r) = best_place(&|x: i32| -((x - 4) as i64).abs(), &[1, 3, 5, 9], i64::MIN, 100);
    assert_eq!((p, r), (3, -1));
    assert_eq!(best_place(&|_x: i32| 0, &[1, 2], 0, 7), (7, 0));
}

#[test]
fn a_block_outside_has_no_window() {
    assert_eq!(block_window(-1, 4, 100), None);
    assert_eq!(block_window(0, 4, 100), Some(0));
    assert_eq!(block_window(96, 4, 100), Some(96));
    assert_eq!(block_window(97, 4, 100), None);
}

/// A peak between the coarse steps, in both directions, is found exactly.
#[test]
fn ft4_finds_a_peak_off_the_grid() {
    let peak = |c: Cell| -(((c.df - 7) as i64).abs() * 50 + ((c.i0 - 351) as i64).abs());
    let r = ft4_sync_search(&peak, 0);
    assert_eq!(r.cell, Cell { df: 7, fine: 0, i0: 351 });
    assert_eq!(r.rank, 0);
    assert_eq!(ft4_sync_search_window_with(&peak, 0, 300, 400).cell.i0, 351);
    // The window ends before the peak: as near as the fine pass reaches.
    assert_eq!(ft4_sync_search_window_with(&peak, 0, 0, 100).cell.i0, 105);
}

/// With a score anywhere in it the window is kept to, whatever start the
/// search was given, and no cell outside is asked for.
#[test]
fn a_scored_window_is_kept() {
    for (lo, hi) in [(0, 100), (7, 7), (-40, -3)] {
        let score = |c: Cell| {
            assert!((-16..=16).contains(&c.df) && c.fine == 0);
            assert!((lo - 5..=hi + 5).contains(&c.i0));
            c.i0 as i64
        };
        let r = ft4_sync_search_window_with(&score, 5_000, lo, hi);
        assert_eq!(r.cell.i0, lo + (hi - lo) / 4 * 4 + 5);
    }
}

/// A table of scores made beforehand finds what scoring on the spot does.
#[test]
fn kept_scores_find_what_fresh_ones_do() {
    let fresh = |c: Cell| ((c.df as i64 * 37 + c.i0 as i64 * 101) % 1_009 - 500).abs();
    let kept: Vec<Vec<i64>> = (-16..=16)
        .map(|df| (15..=85).map(|i0| fresh(Cell { df, fine: 0, i0 })).collect())
        .collect();
    let table = |c: Cell| kept[(c.df + 16) as usize][(c.i0 - 15) as usize];
    let a = ft4_sync_search_window_with(&fresh, 50, 20, 80);
    assert_eq!(a, ft4_sync_search_window_with(&table, 50, 20, 80));
    assert!((-16..=16).contains(&a.cell.df) && (15..=85).contains(&a.cell.i0));
    assert_eq!(a, ft4_sync_search_window_binned(&table, &fresh, 50, 20, 80));
}

#[test]
fn ft4_keeps_its_start_when_nothing_scores() {
    let nothing = |_c: Cell| i64::MIN;
    let r = ft4_sync_search(&nothing, 42);
    assert_eq!((r.cell, r.rank), (Cell { df: 0, fine: 0, i0: 42 }, i64::MIN));
    // An empty window: the fine pass still looks around the start.
    let flat = |c: Cell| if c.i0 == 44 { 5 } else { 0 };
    assert_eq!(ft4_sync_search_window_with(&flat, 42, 10, 9).cell, Cell { df: -4, fine: 0, i0: 44 });
}

/// A coarse scorer of its own decides where the fine pass looks, and no more.
#[test]
fn the_fine_pass_is_exact_after_a_coarse_guess() {
    let guess = |c: Cell| -(((c.i0 - 200) as i64).abs());
    let exact = |c: Cell| -(((c.i0 - 203) as i64).abs() + ((c.df + 10) as i64).abs());
    let r = ft4_sync_search_window_binned(&guess, &exact, 0, -344, 1012);
    assert_eq!(r.cell, Cell { df: -10, fine: 0, i0: 203 });
}

#[test]
fn fst4_searches_in_two_scales() {
    // 3.4 tenths of the baud rate: 3 tenths and 2 fiftieths.
    let peak = |c: Cell| 1000 - ((c.df * 5 + c.fine - 17) as i64).abs() * 10
        - ((c.i0 - 1_015) as i64).abs();
    let r = fst4_sync_search(&peak, 1_000, 100);
    assert_eq!((r.cell.df * 5 + r.cell.fine, r.cell.i0, r.rank), (17, 1_015, 1_000));
}

/// The fine pass starts from zero: a score that is not above it does not move
/// the coarse winner.
#[test]
fn fst4_wants_a_score_above_zero() {
    let below = |c: Cell| if c.df == 2 && c.i0 == 996 { -1 } else { -5 };
    let r = fst4_sync_search(&below, 1_000, 100);
    assert_eq!((r.cell, r.rank), (Cell { df: 2, fine: 0, i0: 996 }, 0));
}

#[test]
fn bins_line_up_with_the_coarse_steps() {
    assert_eq!(phase_index(-4, 32), 7);
    assert_eq!(phase_index(68, 32), 1);
    assert_eq!(bin_base(64, 3, 32), 40);
}

// ── The sweep ───────────────────────────────────────────────────────────────

/// FT4's blocks on the downsampled signal.
fn ft4_blocks() -> Vec<Block> {
    [0, 33, 66, 99].iter().map(|&s| Block { off: s * 32, len: 128 }).collect()
}

/// Cells that a cut-up run scores, in the order it scores them.
fn run(chunk: usize, max_cells: usize, len: usize) -> Vec<Stripe> {
    let blocks = ft4_blocks();
    let mut sweep = Ft4CoarseSweep::new(-100, 300, len);
    let mut out = Vec::new();
    let mut have = 0;
    while have < len {
        have = (have + chunk).min(len);
        out.extend(sweep.advance(have, len, &blocks, max_cells).0);
    }
    out.extend(sweep.complete(len, &blocks));
    let (done, all) = sweep.progress();
    assert_eq!((done, all), (4 * 9 * 101, 4 * 9 * 101));
    out
}

/// However the signal is cut up, every block of every start is scored once,
/// in order, and never ahead of the block before it.
#[test]
fn a_sweep_scores_every_cell_once() {
    for (chunk, max) in [(1_000, usize::MAX), (37, usize::MAX), (500, 90), (3_600, 1), (640, 0)] {
        let mut next = [0usize; 4];
        for s in run(chunk, max, 3_600) {
            assert_eq!(s.from, next[s.block]);
            assert!(s.n > 0);
            next[s.block] += s.n;
            if s.block > 0 {
                assert!(next[s.block] <= next[s.block - 1]);
            }
        }
        assert_eq!(next, [101; 4]);
    }
}

#[test]
fn a_block_waits_for_its_samples_and_a_margin() {
    let blocks = ft4_blocks();
    let mut sweep = Ft4CoarseSweep::new(0, 8, 4_000);
    // The first start's first block ends at 128.
    let (s, more) = sweep.advance(131, 4_000, &blocks, usize::MAX);
    assert!(s.is_empty() && !more);
    let (s, more) = sweep.advance(132, 4_000, &blocks, usize::MAX);
    assert_eq!(s, [Stripe { block: 0, from: 0, n: 1 }]);
    assert!(!more);
    assert_eq!(sweep.progress(), (9, 108));
    // A small budget takes one start at a time, and says that there is more.
    let (s, more) = sweep.advance(1_300, 4_000, &blocks, 9);
    assert_eq!(s, [Stripe { block: 0, from: 1, n: 1 }]);
    assert!(more);
    // Fewer samples than before change nothing.
    let (s, _) = sweep.advance(10, 4_000, &blocks, usize::MAX);
    assert_eq!(
        s,
        [Stripe { block: 0, from: 2, n: 1 }, Stripe { block: 1, from: 0, n: 3 }]
    );
}

/// A block past the end of the signal will never be there, and is not waited
/// for.
#[test]
fn a_block_past_the_end_is_not_waited_for() {
    let blocks = ft4_blocks();
    let mut sweep = Ft4CoarseSweep::new(0, 0, 2_000);
    let (s, more) = sweep.advance(1_300, 2_000, &blocks, usize::MAX);
    // Blocks 2 and 3 end at 2240 and 3296.
    assert_eq!(s.len(), 4);
    assert!(!more);
}

/// The sweep's winner and fine pass are the one-shot search's.
#[test]
fn ft4_incremental_sweep_matches_the_one_shot_search() {
    let peak = |c: Cell| -(((c.df + 2) as i64).abs() * 7 + ((c.i0 - 77) as i64).abs());
    let blocks = ft4_blocks();
    let mut sweep = Ft4CoarseSweep::new(-100, 300, 5_000);
    sweep.complete(5_000, &blocks);
    let mut ranks = Vec::new();
    for idf in 0..9 {
        for c in 0..101 {
            ranks.push(peak(Cell { df: -12 + 3 * idf, fine: 0, i0: -100 + 4 * c }));
        }
    }
    let swept = sweep.fine(&ranks, &peak);
    assert_eq!(swept, ft4_sync_search_window_with(&peak, 0, -100, 300));
    assert_eq!(swept.cell, Cell { df: -2, fine: 0, i0: 77 });
}

#[test]
fn a_sweep_of_no_starts_is_done() {
    let mut sweep = Ft4CoarseSweep::new(5, 4, 100);
    assert_eq!(sweep.progress(), (0, 0));
    assert!(sweep.complete(100, &ft4_blocks()).is_empty());
    let flat = |_c: Cell| 1;
    assert_eq!(sweep.fine(&[], &flat).cell, Cell { df: -4, fine: 0, i0: -5 });
}

// ── Fine sync ───────────────────────────────────────────────────────────────

const TAU: f32 = std::f32::consts::TAU;
const RATE: f32 = 12_000.0;
const TONE_HZ: f32 = 6.25;
const START_S: f32 = 0.5;
const CD0_RATE: f32 = 200.0;
const STEP_HZ: f32 = 0.5;

/// The rank of a score: ordered as the scores are, with 0 for zero.
fn rank_of(s: f32) -> i64 {
    if s.is_nan() {
        return i64::MIN;
    }
    let bits = s.to_bits();
    let magnitude = (bits & 0x7fff_ffff) as i64;
    if bits >> 31 == 1 { -magnitude } else { magnitude }
}

/// The bins of each Costas symbol, mixed down from the audio.
fn mix(audio: &[i16], freq_hz: f32, i0: i32) -> Vec<[(f32, f32); NB]> {
    let mut out = Vec::new();
    for block in [0u32, 36, 72] {
        for (k, &tone) in COSTAS.iter().enumerate() {
            let w = TAU / RATE * (freq_hz + tone as f32 * TONE_HZ);
            let mut bins = [(0.0f32, 0.0f32); NB];
            for (j, bin) in bins.iter_mut().enumerate() {
                if let Some(st) = bin_window(i0, block + k as u32, j, audio.len()) {
                    for n in 0..BIN as usize {
                        let x = audio[st + n] as f32;
                        let ph = w * (j * BIN as usize + n) as f32;
                        bin.0 += x * ph.cos();
                        bin.1 -= x * ph.sin();
                    }
                }
            }
            out.push(bins);
        }
    }
    out
}

fn correlate(bins: &[[(f32, f32); NB]], p: Place) -> f32 {
    let j0 = span_start(p.d);
    let delf = p.tweak.map_or(0.0, |k| (k as i32 - STAGE_B_STEPS) as f32 * STEP_HZ);
    let mut sum = 0.0f32;
    for sym in bins {
        let (mut re, mut im) = (0.0f32, 0.0f32);
        for m in 0..32 {
            let ph = TAU * delf / CD0_RATE * m as f32;
            let (c, s) = (ph.cos(), -ph.sin());
            let (a, b) = sym[j0 + m];
            re += a * c - b * s;
            im += a * s + b * c;
        }
        sum += re * re + im * im;
    }
    sum
}

/// A signal placed off the coarse grid in both axes comes back to within one
/// search step of where it was placed.
#[test]
fn recovers_an_off_grid_signal_through_noise() {
    const F_TRUE: f32 = 1501.2;
    const DT_TRUE: f32 = 0.137;
    let mut msg = [0u8; 77];
    for (i, b) in msg.iter_mut().enumerate() {
        *b = ((i * 7 + 3) % 5 == 0) as u8;
    }
    let itone = message_to_tones::<Padded>(&msg);
    let mut sig = Vec::new();
    let mut phase = 0.0f64;
    for &t in &itone {
        let f = F_TRUE as f64 + t as f64 * TONE_HZ as f64;
        for _ in 0..NSPS {
            sig.push((2_000.0 * phase.sin()) as i32);
            phase += std::f64::consts::TAU * f / RATE as f64;
        }
    }
    let start = ((START_S + DT_TRUE) * RATE).round() as usize;
    let mut audio = vec![0i16; 180_000];
    let mut state: u32 = 0x1234_5678;
    for (i, a) in audio.iter_mut().enumerate() {
        state ^= state << 13;
        state ^= state >> 17;
        state ^= state << 5;
        let noise = (state % 8_001) as i32 - 4_000;
        let s = if i >= start && i - start < sig.len() { sig[i - start] } else { 0 };
        *a = (s + noise).clamp(-32_768, 32_767) as i16;
    }
    let (freq_hz, dt_sec) = (1_500.0f32, 0.10f32);
    let i0 = ((dt_sec + START_S) * CD0_RATE).round() as i32;
    let bins = mix(&audio, freq_hz, i0);
    let found = fine_sync_12k(&|_i: usize, p: Place| rank_of(correlate(&bins, p)), 1);
    assert_eq!(found.len(), 1);
    let (d, step) = found[0];
    let f = freq_hz + (step as i32 - STAGE_B_STEPS) as f32 * STEP_HZ;
    let dt = (i0 + d) as f32 / CD0_RATE - START_S;
    assert!((f - F_TRUE).abs() <= STEP_HZ, "freq {f} vs {F_TRUE}");
    assert!((dt - DT_TRUE).abs() <= 1.0 / CD0_RATE, "dt {dt} vs {DT_TRUE}");
}

#[test]
fn empty_input_allocates_nothing_and_returns_nothing() {
    assert!(fine_sync_12k(&|_i: usize, _p: Place| 0, 0).is_empty());
}

/// Candidates come back in order, each with its own place.
#[test]
fn candidates_keep_their_order() {
    let peaks = [(-3i32, 2usize), (9, 8), (0, 5)];
    let score = |i: usize, p: Place| {
        let step = p.tweak.unwrap_or(5) as i64;
        -((p.d - peaks[i].0) as i64).abs() * 100 - (step - peaks[i].1 as i64).abs()
    };
    assert_eq!(fine_sync_12k(&score, 3), peaks);
}

/// The stages ask only for places whose bins are mixed.
#[test]
fn the_stages_stay_in_reach() {
    let bins: Vec<i64> = (0..NB as i64).collect();
    for up in [-1i64, 1] {
        let score = |_i: usize, p: Place| {
            let from = span_start(p.d);
            assert!(p.tweak.map_or(true, |k| k <= 2 * STAGE_B_STEPS as usize));
            up * bins[from..from + 32].iter().sum::<i64>()
        };
        assert_eq!(fine_sync_12k(&score, 1), [(14 * up as i32, 0)]);
    }
}

/// Without a score, each stage keeps what it starts from.
#[test]
fn stages_without_a_score_keep_their_start() {
    assert_eq!(fine_sync_12k(&|_i: usize, _p: Place| i64::MIN, 1), [(-10, 5)]);
    // The last stage can leave the first one's range.
    let edge = |_i: usize, p: Place| if p.tweak.is_none() { (p.d == 10) as i64 } else { p.d as i64 };
    assert_eq!(fine_sync_12k(&edge, 1), [(14, 0)]);
}

#[test]
fn bins_that_leave_the_audio_count_nothing() {
    assert_eq!(bin_window(0, 0, 0, 180_000), None);
    assert_eq!(bin_window(14, 0, 0, 180_000), Some(0));
    assert_eq!(bin_window(14, 1, 2, 180_000), Some(34 * 60));
    assert_eq!(bin_window(14, 0, 59, 3_599), None);
    assert_eq!(bin_window(14, 0, 59, 3_600), Some(59 * 60));
    assert_eq!(span_start(14), 28);
}
