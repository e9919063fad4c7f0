//! Cutting the 12 kHz stream into chunks and slots.
//!
//! The stream runs without gaps; where a slot ends is decided sample by
//! sample against a target. The clock places the grid once, roughly; after
//! that one authority moves it per boundary: UTC once the clock is
//! disciplined, and before then the air.

use vstd::prelude::*;

verus! {

/// One chunk: 100 ms at 12 kHz.
pub const CHUNK_LEN: usize = 1_200;

/// One slot: 15 s at 12 kHz.
pub const SLOT_SAMPLES_12K: usize = 180_000;

/// The same slot in seconds.
pub const SLOT_SECS: u64 = 15;

/// How far off the grid may sit before a correction is worth a slot: 200 ms.
pub const DEAD_ZONE_SAMPLES: usize = 2_400;

/// The smallest phase error that UTC corrects: 0.5 ms.
pub const FINE_PHASE_MIN_SAMPLES: u64 = 6;

/// Floor for a slot shortened by an acquisition.
pub const MIN_ACQ_SLOT_SAMPLES: i32 = 30_000;

/// Bounds of a slot moved by the air.
pub const MIN_AIR_SLOT_SAMPLES: i32 = 60_000;

pub const MAX_AIR_SLOT_SAMPLES: i32 = 200_000;

/// Phase error that is worth saying.
pub const SLOT_DRIFT_REANCHOR_MS: u32 = 250;

/// What the slot grid is locked to.
#[derive(Debug, Clone, Copy, PartialEq, Eq, Structural)]
pub enum GridLock {
    /// Nothing yet.
    Free,
    /// A plausible clock, not disciplined.
    Rtc,
    /// Signals on the air.
    Air,
    /// A clock disciplined by NTP.
    Ntp,
}

// ── Arithmetic ──────────────────────────────────────────────────────────────

/// `a / b` rounded towards zero.
pub open spec fn toward_zero(a: int, b: int) -> int {
    if a >= 0 {
        a / b
    } else {
        -((-a) / b)
    }
}

/// `d` folded to the nearest turn of `period`: in `-period/2 .. period/2`,
/// the upper end included.
pub open spec fn nearest(d: int, period: int) -> int {
    let m = d % period;
    if m > period / 2 {
        m - period
    } else {
        m
    }
}

pub fn fold(d: i128, period: u32) -> (r: i64)
    requires
        period > 0,
    ensures
        r == nearest(d as int, period as int),
        -(period as int) < r <= period,
{
    let m: i128 = d.checked_rem_euclid(period as i128).unwrap();
    let half: u32 = period / 2;
    if m > half as i128 {
        (m - period as i128) as i64
    } else {
        m as i64
    }
}

/// A folded distance is the distance, up to whole turns.
pub proof fn law_fold_keeps_the_phase(d: int, period: int)
    requires
        period > 0,
    ensures
        (nearest(d, period) - d) % period == 0,
        -period < 2 * nearest(d, period) <= period,
{
    let m = d % period;
    vstd::arithmetic::div_mod::lemma_fundamental_div_mod(d, period);
    let q = d / period;
    assert(m - d == period * (-q)) by (nonlinear_arith)
        requires
            d == period * q + m,
    ;
    assert(m - period - d == period * (-q - 1)) by (nonlinear_arith)
        requires
            d == period * q + m,
    ;
    vstd::arithmetic::div_mod::lemma_mod_multiples_basic(-q, period);
    vstd::arithmetic::div_mod::lemma_mod_multiples_basic(-q - 1, period);
    assert(period * (-q) == (-q) * period) by (nonlinear_arith);
    assert(period * (-q - 1) == (-q - 1) * period) by (nonlinear_arith);
}

// ── The phase of the grid against the clock ─────────────────────────────────

/// The grid against UTC over one slot: the least error over its blocks.
///
/// A block that is handed over late makes the clock read late and the grid
/// seem later than it is, never earlier, so lateness drops out of the least.
pub struct GridPhase {
    best: Option<i64>,
}

impl View for GridPhase {
    type V = Option<i64>;

    closed spec fn view(&self) -> Option<i64> {
        self.best
    }
}

/// The least of what was seen and one more.
pub open spec fn least(best: Option<i64>, e: int) -> Option<i64> {
    match best {
        Some(b) => if b <= e {
            Some(b)
        } else {
            Some(e as i64)
        },
        None => Some(e as i64),
    }
}

impl GridPhase {
    pub fn new() -> (r: Self)
        ensures
            r@ is None,
    {
        GridPhase { best: None }
    }

    /// One observation: samples to the grid's next boundary against samples
    /// to the clock's.
    pub fn observe(&mut self, grid: i128, clock: i64, period: u32)
        requires
            period > 0,
            i128::MIN + 0x1_0000_0000_0000_0000 <= grid <= i128::MAX - 0x1_0000_0000_0000_0000,
        ensures
            final(self)@ == least(old(self)@, nearest(grid - clock, period as int)),
    {
        let e: i64 = fold(grid - clock as i128, period);
        match self.best {
            Some(b) => {
                if e < b {
                    self.best = Some(e);
                }
            },
            None => {
                self.best = Some(e);
            },
        }
    }

    /// The least error seen, and a fresh start.
    pub fn take(&mut self) -> (r: Option<i64>)
        ensures
            r == old(self)@,
            final(self)@ is None,
    {
        let r = self.best;
        self.best = None;
        r
    }
}

// ── A persisted fix ─────────────────────────────────────────────────────────

/// A grid phase from an earlier session, in microseconds, waiting to be
/// folded into the first anchor. `i32::MIN` stands for none.
#[derive(Debug)]
pub struct GridFixSeed {
    pub offset_us: i32,
}

impl GridFixSeed {
    pub fn new() -> (r: Self)
        ensures
            r.offset_us == i32::MIN,
    {
        GridFixSeed { offset_us: i32::MIN }
    }
}

/// Whether a fix was handed over.
pub fn grid_fix_seeded(seed: &GridFixSeed) -> (r: bool)
    ensures
        r == (seed.offset_us != i32::MIN),
{
    seed.offset_us != i32::MIN
}

/// Hand over a persisted fix, before the first audio arrives.
pub fn seed_grid_fix_us(seed: &mut GridFixSeed, offset_us: i32)
    ensures
        final(seed).offset_us == offset_us,
{
    seed.offset_us = offset_us;
}

/// Samples to the boundary once a fix is folded in.
pub open spec fn with_fix(remain: int, offset_us: i32) -> int {
    if offset_us == i32::MIN {
        remain
    } else {
        (remain + toward_zero(offset_us * 12, 1000)) % (SLOT_SAMPLES_12K as int)
    }
}

fn fold_fix(remain: usize, seed: &GridFixSeed) -> (r: usize)
    ensures
        r == with_fix(remain as int, seed.offset_us),
{
    if !grid_fix_seeded(seed) {
        return remain;
    }
    let us: i64 = seed.offset_us as i64;
    let shift: i64 = if us >= 0 {
        (us as u64 * 12 / 1000) as i64
    } else {
        -(((-us) as u64 * 12 / 1000) as i64)
    };
    let shifted: i128 = remain as i128 + shift as i128;
    let r: i128 = shifted.checked_rem_euclid(SLOT_SAMPLES_12K as i128).unwrap();
    r as usize
}

// ── Shifts from the decoder ─────────────────────────────────────────────────

/// Slot shifts that the decoder asks for, in samples, each used once. 0 is
/// none.
#[derive(Debug)]
pub struct Shifts {
    /// From a cold acquisition.
    pub acquisition: i32,
    /// From the time offsets of this slot's signals.
    pub air: i32,
}

impl Shifts {
    pub fn new() -> (r: Self)
        ensures
            r.acquisition == 0,
            r.air == 0,
    {
        Shifts { acquisition: 0, air: 0 }
    }

    pub fn take_acquisition_shift_12k(&mut self) -> (r: i32)
        ensures
            r == old(self).acquisition,
            final(self).acquisition == 0,
            final(self).air == old(self).air,
    {
        let r: i32 = self.acquisition;
        self.acquisition = 0;
        r
    }

    pub fn take_bootstrap_slot_shift_12k(&mut self) -> (r: i32)
        ensures
            r == old(self).air,
            final(self).air == 0,
            final(self).acquisition == old(self).acquisition,
    {
        let r: i32 = self.air;
        self.air = 0;
        r
    }
}

// ── The next slot's length ──────────────────────────────────────────────────

/// The next slot under UTC, `remain` samples before the clock's boundary.
///
/// Inside the dead zone the slot keeps its length but for the phase error
/// measured over the last slot; outside it the slot ends on the clock's
/// boundary, whichever way the error points.
pub open spec fn utc_target(remain: int, phase: Option<i64>) -> int {
    let zone = DEAD_ZONE_SAMPLES as int;
    let slot = SLOT_SAMPLES_12K as int;
    if remain <= zone || remain >= slot - zone {
        match phase {
            Some(e) => if -(FINE_PHASE_MIN_SAMPLES as int) < e < FINE_PHASE_MIN_SAMPLES {
                slot
            } else if e < -zone {
                slot + zone
            } else if e > zone {
                slot - zone
            } else {
                slot - e
            },
            None => slot,
        }
    } else {
        remain
    }
}

/// The clock's phase error in milliseconds, signed to the nearer boundary.
pub open spec fn utc_error_ms(remain: int) -> int {
    let slot = SLOT_SAMPLES_12K as int;
    if remain > slot / 2 {
        -((slot - remain) / 12)
    } else {
        remain / 12
    }
}

/// The next slot after an acquisition: a slot can only be shortened, so a
/// shift forward is taken by ending the slot that many samples in.
pub open spec fn acquired_target(shift: int) -> int {
    let zone = DEAD_ZONE_SAMPLES as int;
    let slot = SLOT_SAMPLES_12K as int;
    if -zone <= shift <= zone {
        slot
    } else if shift > 0 {
        shift
    } else if slot + shift < MIN_ACQ_SLOT_SAMPLES {
        MIN_ACQ_SLOT_SAMPLES as int
    } else {
        slot + shift
    }
}

/// The next slot moved by the air.
pub open spec fn air_target(shift: int) -> int {
    let t = SLOT_SAMPLES_12K + shift;
    if t < MIN_AIR_SLOT_SAMPLES {
        MIN_AIR_SLOT_SAMPLES as int
    } else if t > MAX_AIR_SLOT_SAMPLES {
        MAX_AIR_SLOT_SAMPLES as int
    } else {
        t
    }
}

fn utc_slot(remain: usize, phase: Option<i64>) -> (r: usize)
    requires
        remain <= SLOT_SAMPLES_12K,
    ensures
        r == utc_target(remain as int, phase),
        0 < r <= SLOT_SAMPLES_12K + DEAD_ZONE_SAMPLES,
{
    if remain <= DEAD_ZONE_SAMPLES || remain >= SLOT_SAMPLES_12K - DEAD_ZONE_SAMPLES {
        match phase {
            Some(e) => {
                let min: i64 = FINE_PHASE_MIN_SAMPLES as i64;
                let zone: i64 = DEAD_ZONE_SAMPLES as i64;
                if -min < e && e < min {
                    SLOT_SAMPLES_12K
                } else {
                    let c: i64 = if e < -zone {
                        -zone
                    } else if e > zone {
                        zone
                    } else {
                        e
                    };
                    (SLOT_SAMPLES_12K as i64 - c) as usize
                }
            },
            None => SLOT_SAMPLES_12K,
        }
    } else {
        remain
    }
}

fn utc_error(remain: usize) -> (r: i32)
    requires
        remain <= SLOT_SAMPLES_12K,
    ensures
        r == utc_error_ms(remain as int),
{
    if remain > SLOT_SAMPLES_12K / 2 {
        -(((SLOT_SAMPLES_12K - remain) / 12) as i32)
    } else {
        (remain / 12) as i32
    }
}

fn acquired_slot(shift: i32) -> (r: usize)
    ensures
        r == acquired_target(shift as int),
        r > 0,
{
    let zone: i32 = DEAD_ZONE_SAMPLES as i32;
    if -zone <= shift && shift <= zone {
        SLOT_SAMPLES_12K
    } else if shift > 0 {
        shift as usize
    } else {
        let t: i32 = SLOT_SAMPLES_12K as i32 + shift;
        if t < MIN_ACQ_SLOT_SAMPLES {
            MIN_ACQ_SLOT_SAMPLES as usize
        } else {
            t as usize
        }
    }
}

fn air_slot(shift: i32) -> (r: usize)
    requires
        shift <= i32::MAX - SLOT_SAMPLES_12K,
    ensures
        r == air_target(shift as int),
        r > 0,
{
    let t: i32 = SLOT_SAMPLES_12K as i32 + shift;
    if t < MIN_AIR_SLOT_SAMPLES {
        MIN_AIR_SLOT_SAMPLES as usize
    } else if t > MAX_AIR_SLOT_SAMPLES {
        MAX_AIR_SLOT_SAMPLES as usize
    } else {
        t as usize
    }
}

/// Outside the dead zone UTC ends the slot exactly on the clock's boundary,
/// and no correction makes a slot longer than the dead zone allows.
pub proof fn law_utc_lands_on_the_boundary(remain: int, phase: Option<i64>)
    requires
        0 <= remain <= SLOT_SAMPLES_12K,
    ensures
        DEAD_ZONE_SAMPLES < remain < SLOT_SAMPLES_12K - DEAD_ZONE_SAMPLES ==> utc_target(
            remain,
            phase,
        ) == remain,
        0 < utc_target(remain, phase) <= SLOT_SAMPLES_12K + DEAD_ZONE_SAMPLES,
{
}

/// An acquisition of up to half a slot either way never makes the slot
/// longer, and puts the boundary where the shift asked for it, up to whole
/// slots.
pub proof fn law_acquisition_only_shortens(shift: int)
    requires
        -(SLOT_SAMPLES_12K as int) <= 2 * shift <= SLOT_SAMPLES_12K,
        !(-(DEAD_ZONE_SAMPLES as int) <= shift <= DEAD_ZONE_SAMPLES),
    ensures
        0 < acquired_target(shift) < SLOT_SAMPLES_12K,
        (acquired_target(shift) - (SLOT_SAMPLES_12K + shift)) % (SLOT_SAMPLES_12K as int) == 0,
{
}

// ── The sink ────────────────────────────────────────────────────────────────

/// Cuts the stream into chunks of at most [`CHUNK_LEN`] and slots.
pub struct Ft8ChunkSink {
    /// Samples not handed on yet.
    chunk: Vec<i16>,
    /// Samples of this slot handed on.
    slot_samples: usize,
    /// Samples this slot runs for.
    slot_target: usize,
    wav_idx: usize,
    /// The one-time rough anchor from the clock has run.
    coarse_anchored: bool,
    /// It has been said that UTC owns the phase.
    utc_owns_phase_logged: bool,
    /// Samples handed on since the start, wrapping.
    sent_total: u32,
    phase: GridPhase,
}

pub struct SinkView {
    pub chunk: Seq<i16>,
    pub slot_samples: nat,
    pub slot_target: nat,
    pub wav_idx: usize,
    pub coarse_anchored: bool,
    pub utc_said: bool,
    pub sent_total: u32,
    pub phase: Option<i64>,
}

impl View for Ft8ChunkSink {
    type V = SinkView;

    closed spec fn view(&self) -> SinkView {
        SinkView {
            chunk: self.chunk@,
            slot_samples: self.slot_samples as nat,
            slot_target: self.slot_target as nat,
            wav_idx: self.wav_idx,
            coarse_anchored: self.coarse_anchored,
            utc_said: self.utc_owns_phase_logged,
            sent_total: self.sent_total,
            phase: self.phase@,
        }
    }
}

/// Samples of this slot so far, handed on or not.
pub open spec fn so_far(s: SinkView) -> int {
    (s.slot_samples + s.chunk.len()) as int
}

/// The chunk is not full and the slot not over.
pub open spec fn sink_ok(s: SinkView) -> bool {
    &&& s.chunk.len() < CHUNK_LEN
    &&& so_far(s) <= s.slot_target < usize::MAX
}

/// Samples until the next chunk is handed on: when it is full, or when the
/// slot ends, whichever is first.
pub open spec fn due(s: SinkView) -> int {
    let full = CHUNK_LEN - s.chunk.len();
    let end = if s.slot_target > so_far(s) {
        s.slot_target - so_far(s)
    } else {
        1
    };
    if end < full {
        end
    } else {
        full
    }
}

/// The end of a slot.
#[derive(Debug, PartialEq, Eq)]
pub struct SlotEnd {
    pub wav_idx: usize,
    /// Samples in the slot.
    pub total_samples: usize,
    /// Samples handed on since the start, wrapping: the boundary's place in
    /// the stream.
    pub boundary_at: u32,
    /// The grid against UTC over the slot.
    pub phase: Option<i64>,
}

/// A chunk to hand on.
#[derive(Debug)]
pub struct Cut {
    pub chunk: Vec<i16>,
    /// Where in the block to go on.
    pub next: usize,
    pub end: Option<SlotEnd>,
}

/// The sink after a chunk of `n` more samples is handed on.
pub open spec fn cut(s: SinkView, n: int) -> SinkView {
    let total = so_far(s) + n;
    let sent = (s.sent_total + s.chunk.len() + n) % 0x1_0000_0000;
    if total >= s.slot_target {
        SinkView {
            chunk: Seq::empty(),
            slot_samples: 0,
            slot_target: SLOT_SAMPLES_12K as nat,
            wav_idx: if s.wav_idx < usize::MAX {
                (s.wav_idx + 1) as usize
            } else {
                0
            },
            sent_total: sent as u32,
            phase: None,
            ..s
        }
    } else {
        SinkView {
            chunk: Seq::empty(),
            slot_samples: total as nat,
            sent_total: sent as u32,
            ..s
        }
    }
}

/// The target that the clock's anchor sets: the boundary is `remain` past
/// the end of the block, or a slot earlier if that is not past already.
pub open spec fn anchor_target(before: int, n: int, remain: int) -> int {
    let t = before + n + remain;
    if t > SLOT_SAMPLES_12K && t - SLOT_SAMPLES_12K >= before {
        t - SLOT_SAMPLES_12K
    } else {
        t
    }
}

/// What was decided at a boundary.
#[derive(Debug, PartialEq, Eq)]
pub struct SlotPlan {
    /// The lock to note, if it changed.
    pub lock: Option<GridLock>,
    /// UTC took the phase over just now.
    pub utc_took_over: bool,
    /// The phase error to warn of, in milliseconds.
    pub drift_ms: Option<i32>,
}

/// The next slot's length.
pub open spec fn planned(
    disciplined: bool,
    remain: Option<usize>,
    phase: Option<i64>,
    acquisition: int,
    air: int,
) -> int {
    if disciplined {
        match remain {
            Some(r) => utc_target(r as int, phase),
            None => SLOT_SAMPLES_12K as int,
        }
    } else if acquisition != 0 {
        acquired_target(acquisition)
    } else if air != 0 {
        air_target(air)
    } else {
        SLOT_SAMPLES_12K as int
    }
}

impl Ft8ChunkSink {
    pub fn new() -> (r: Self)
        ensures
            r@ == (SinkView {
                chunk: Seq::empty(),
                slot_samples: 0,
                slot_target: SLOT_SAMPLES_12K as nat,
                wav_idx: 0,
                coarse_anchored: false,
                utc_said: false,
                sent_total: 0,
                phase: None,
            }),
            sink_ok(r@),
    {
        let r = Ft8ChunkSink {
            chunk: Vec::new(),
            slot_samples: 0,
            slot_target: SLOT_SAMPLES_12K,
            wav_idx: 0,
            coarse_anchored: false,
            utc_owns_phase_logged: false,
            sent_total: 0,
            phase: GridPhase::new(),
        };
        assert(r@.chunk =~= Seq::<i16>::empty());
        r
    }

    /// Samples of this slot so far.
    pub fn in_slot(&self) -> (r: usize)
        requires
            sink_ok(self@),
        ensures
            r == so_far(self@),
    {
        self.slot_samples + self.chunk.len()
    }

    /// The target of the slot being filled.
    pub fn target(&self) -> (r: usize)
        ensures
            r == self@.slot_target,
    {
        self.slot_target
    }

    pub fn slot_index(&self) -> (r: usize)
        ensures
            r == self@.wav_idx,
    {
        self.wav_idx
    }

    pub fn anchored(&self) -> (r: bool)
        ensures
            r == self@.coarse_anchored,
    {
        self.coarse_anchored
    }

    /// The one-time rough anchor, as a block of `n` samples comes in and the
    /// clock says that a boundary is `remain` samples away.
    ///
    /// The clock was read now and the block's last sample is about now, so
    /// the boundary is counted from the block's end. The current slot is
    /// given the right length; its count of samples is left as it is.
    pub fn anchor(
        &mut self,
        n: usize,
        remain: Option<usize>,
        seed: &GridFixSeed,
        disciplined: bool,
    ) -> (r: Option<GridLock>)
        requires
            sink_ok(old(self)@),
            remain is Some ==> so_far(old(self)@) + n + with_fix(remain->0 as int, seed.offset_us)
                < usize::MAX,
        ensures
            sink_ok(final(self)@),
            match r {
                Some(lock) => !old(self)@.coarse_anchored && remain is Some && lock == (
                if disciplined {
                    GridLock::Ntp
                } else {
                    GridLock::Rtc
                }) && final(self)@ == (SinkView {
                    slot_target: anchor_target(
                        so_far(old(self)@),
                        n as int,
                        with_fix(remain->0 as int, seed.offset_us),
                    ) as nat,
                    coarse_anchored: true,
                    ..old(self)@
                }),
                None => (old(self)@.coarse_anchored || remain is None) && final(self)@ == old(
                    self,
                )@,
            },
    {
        if self.coarse_anchored {
            return None;
        }
        match remain {
            Some(clock) => {
                let remain: usize = fold_fix(clock, seed);
                let before: usize = self.slot_samples + self.chunk.len();
                let mut target: usize = before + n + remain;
                if target > SLOT_SAMPLES_12K && target - SLOT_SAMPLES_12K >= before {
                    target = target - SLOT_SAMPLES_12K;
                }
                self.slot_target = target;
                self.coarse_anchored = true;
                Some(
                    if disciplined {
                        GridLock::Ntp
                    } else {
                        GridLock::Rtc
                    },
                )
            },
            None => None,
        }
    }

    /// One observation of the grid against UTC, before a block of `n`
    /// samples is split: the clock's boundary is `clock` samples away.
    pub fn observe(&mut self, n: usize, clock: Option<i64>)
        requires
            sink_ok(old(self)@),
        ensures
            final(self)@ == (SinkView {
                phase: if old(self)@.coarse_anchored && clock is Some {
                    least(
                        old(self)@.phase,
                        nearest(
                            old(self)@.slot_target - (so_far(old(self)@) + n) - clock->0,
                            SLOT_SAMPLES_12K as int,
                        ),
                    )
                } else {
                    old(self)@.phase
                },
                ..old(self)@
            }),
    {
        if self.coarse_anchored {
            if let Some(c) = clock {
                let at_end: i128 = self.slot_samples as i128 + self.chunk.len() as i128 + n as i128;
                self.phase.observe(self.slot_target as i128 - at_end, c, SLOT_SAMPLES_12K as u32);
            }
        }
    }

    /// The next chunk out of a block, from `at` on; `None` once the block is
    /// used up. The boundary falls on the sample, not on a chunk.
    pub fn next_cut(&mut self, samples: &[i16], at: usize) -> (r: Option<Cut>)
        requires
            sink_ok(old(self)@),
            at <= samples.len(),
        ensures
            sink_ok(final(self)@),
            match r {
                Some(c) => {
                    let n = due(old(self)@);
                    &&& at + n <= samples.len()
                    &&& c.next == at + n
                    &&& c.chunk@ == old(self)@.chunk + samples@.subrange(at as int, at + n)
                    &&& final(self)@ == cut(old(self)@, n)
                    &&& match c.end {
                        Some(e) => so_far(old(self)@) + n >= old(self)@.slot_target && e == (
                        SlotEnd {
                            wav_idx: old(self)@.wav_idx,
                            total_samples: (so_far(old(self)@) + n) as usize,
                            boundary_at: final(self)@.sent_total,
                            phase: old(self)@.phase,
                        }),
                        None => so_far(old(self)@) + n < old(self)@.slot_target,
                    }
                },
                None => at + due(old(self)@) > samples.len() && final(self)@ == (SinkView {
                    chunk: old(self)@.chunk + samples@.subrange(at as int, samples.len() as int),
                    ..old(self)@
                }),
            },
    {
        let mut i: usize = at;
        let ghost s0 = self@;
        let ghost n0 = due(s0);
        assert(s0.chunk + samples@.subrange(at as int, at as int) =~= s0.chunk);
        while i < samples.len()
            invariant
                at <= i <= samples.len(),
                s0 == old(self)@,
                sink_ok(s0),
                n0 == due(s0),
                i < at + n0,
                self@ == (SinkView {
                    chunk: s0.chunk + samples@.subrange(at as int, i as int),
                    ..s0
                }),
            decreases samples.len() - i,
        {
            proof {
                assert((s0.chunk + samples@.subrange(at as int, i as int)).push(samples@[i as int])
                    =~= s0.chunk + samples@.subrange(at as int, i + 1));
            }
            self.chunk.push(samples[i]);
            i += 1;
            let n: usize = self.chunk.len();
            let at_boundary = self.slot_samples + n >= self.slot_target;
            if n >= CHUNK_LEN || at_boundary {
                let mut sent: Vec<i16> = Vec::new();
                std::mem::swap(&mut sent, &mut self.chunk);
                self.slot_samples = self.slot_samples + n;
                self.sent_total = self.sent_total.wrapping_add(n as u32);
                let mut end: Option<SlotEnd> = None;
                if self.slot_samples >= self.slot_target {
                    let phase = self.phase.take();
                    end = Some(
                        SlotEnd {
                            wav_idx: self.wav_idx,
                            total_samples: self.slot_samples,
                            boundary_at: self.sent_total,
                            phase,
                        },
                    );
                    self.wav_idx = self.wav_idx.wrapping_add(1);
                    self.slot_samples = 0;
                    self.slot_target = SLOT_SAMPLES_12K;
                }
                assert(self@.chunk =~= Seq::<i16>::empty());
                return Some(Cut { chunk: sent, next: i, end });
            }
        }
        None
    }

    /// The next slot's length, decided at a boundary by one authority.
    ///
    /// Under a disciplined clock, which says that its boundary is `remain`
    /// samples away, UTC decides and a pending shift of the air is dropped.
    /// Otherwise an acquisition decides if there is one, and else the air.
    pub fn plan(
        &mut self,
        disciplined: bool,
        remain: Option<usize>,
        phase: Option<i64>,
        shifts: &mut Shifts,
    ) -> (r: SlotPlan)
        requires
            old(self)@.slot_samples == 0,
            old(self)@.chunk.len() == 0,
            remain is Some ==> remain->0 <= SLOT_SAMPLES_12K,
            old(shifts).air <= i32::MAX - SLOT_SAMPLES_12K,
        ensures
            sink_ok(final(self)@),
            final(self)@ == (SinkView {
                slot_target: planned(
                    disciplined,
                    remain,
                    phase,
                    old(shifts).acquisition as int,
                    old(shifts).air as int,
                ) as nat,
                coarse_anchored: old(self)@.coarse_anchored || (!disciplined && old(
                    shifts,
                ).acquisition != 0),
                utc_said: old(self)@.utc_said || disciplined,
                ..old(self)@
            }),
            final(shifts).acquisition == if disciplined {
                old(shifts).acquisition
            } else {
                0
            },
            final(shifts).air == if disciplined || old(shifts).acquisition == 0 {
                0
            } else {
                old(shifts).air
            },
            r.lock == if disciplined {
                Some(GridLock::Ntp)
            } else if old(shifts).acquisition != 0 {
                Some(GridLock::Air)
            } else {
                None
            },
            r.utc_took_over == (disciplined && !old(self)@.utc_said),
            r.drift_ms == match remain {
                Some(m) => if disciplined && !(-(SLOT_DRIFT_REANCHOR_MS as int) <= utc_error_ms(
                    m as int,
                ) <= SLOT_DRIFT_REANCHOR_MS) {
                    Some(utc_error_ms(m as int) as i32)
                } else {
                    None
                },
                None => None,
            },
    {
        self.slot_target = SLOT_SAMPLES_12K;
        if disciplined {
            let utc_took_over = !self.utc_owns_phase_logged;
            self.utc_owns_phase_logged = true;
            let _stale: i32 = shifts.take_bootstrap_slot_shift_12k();
            let mut drift_ms: Option<i32> = None;
            if let Some(m) = remain {
                let err: i32 = utc_error(m);
                let limit: i32 = SLOT_DRIFT_REANCHOR_MS as i32;
                if err < -limit || err > limit {
                    drift_ms = Some(err);
                }
                self.slot_target = utc_slot(m, phase);
            }
            SlotPlan { lock: Some(GridLock::Ntp), utc_took_over, drift_ms }
        } else {
            let acq: i32 = shifts.take_acquisition_shift_12k();
            if acq != 0 {
                self.slot_target = acquired_slot(acq);
                self.coarse_anchored = true;
                SlotPlan { lock: Some(GridLock::Air), utc_took_over: false, drift_ms: None }
            } else {
                let air: i32 = shifts.take_bootstrap_slot_shift_12k();
                if air != 0 {
                    self.slot_target = air_slot(air);
                }
                SlotPlan { lock: None, utc_took_over: false, drift_ms: None }
            }
        }
    }

    /// How much of this slot is still to come, in microseconds.
    pub fn remaining_us(&self) -> (r: i64)
        requires
            self@.slot_samples <= self@.slot_target <= 0xffff_ffff,
        ensures
            r == (self@.slot_target - self@.slot_samples) * (SLOT_SECS * 1_000_000)
                / SLOT_SAMPLES_12K as int,
    {
        let left: u64 = (self.slot_target - self.slot_samples) as u64;
        let us: u64 = left * (SLOT_SECS * 1_000_000) / SLOT_SAMPLES_12K as u64;
        us as i64
    }
}

/// Nothing is lost or added: what was held and what is left of the block is
/// the chunk handed on, then what is held, then what is left.
pub proof fn law_the_stream_is_kept(s: SinkView, samples: Seq<i16>, at: int)
    requires
        sink_ok(s),
        0 <= at,
        at + due(s) <= samples.len(),
    ensures
        s.chunk + samples.skip(at) == (s.chunk + samples.subrange(at, at + due(s))) + cut(
            s,
            due(s),
        ).chunk + samples.skip(at + due(s)),
        (s.chunk + samples.subrange(at, at + due(s))).len() <= CHUNK_LEN,
{
    let n = due(s);
    assert(s.chunk + samples.skip(at) =~= (s.chunk + samples.subrange(at, at + n))
        + Seq::<i16>::empty() + samples.skip(at + n));
}

/// A slot ends on its target to the sample; a target already reached ends
/// with the next sample.
pub proof fn law_a_slot_ends_on_its_target(s: SinkView)
    requires
        sink_ok(s),
        so_far(s) + due(s) >= s.slot_target,
    ensures
        so_far(s) < s.slot_target ==> so_far(s) + due(s) == s.slot_target,
        so_far(s) == s.slot_target ==> so_far(s) + due(s) == s.slot_target + 1,
{
}

/// The clock's anchor puts the boundary where the clock has it, up to whole
/// slots, and never behind what has come in.
pub proof fn law_the_anchor_is_on_the_clock(before: int, n: int, remain: int)
    requires
        0 <= before,
        0 <= n,
        0 <= remain,
    ensures
        anchor_target(before, n, remain) >= before,
        (anchor_target(before, n, remain) - (before + n + remain)) % (SLOT_SAMPLES_12K as int)
            == 0,
{
}

// ── Boundaries against the clock ────────────────────────────────────────────

/// Where a boundary fell against UTC, in milliseconds, signed to the nearer
/// tick of the grid.
pub fn boundary_error_ms(utc_ms: u64) -> (r: i64)
    ensures
        r == nearest(utc_ms as int, SLOT_SECS * 1000),
        -7500 < r <= 7500,
{
    fold(utc_ms as i128, (SLOT_SECS * 1000) as u32)
}

/// The grid against a recording that starts at `pass_start` of the same
/// stream, in samples. `None` until a recording runs.
pub fn grid_vs_sim(pass_start: u32, boundary_at: u32) -> (r: Option<i64>)
    ensures
        r == if pass_start == u32::MAX {
            None::<i64>
        } else {
            Some(nearest(wrapped_distance(pass_start, boundary_at), SLOT_SAMPLES_12K as int) as i64)
        },
{
    if pass_start == u32::MAX {
        return None;
    }
    let d: u32 = boundary_at.wrapping_sub(pass_start);
    let signed: i128 = if d < 0x8000_0000 {
        d as i128
    } else {
        d as i128 - 0x1_0000_0000
    };
    Some(fold(signed, SLOT_SAMPLES_12K as u32))
}

/// `b - a` on wrapping counters, read as a signed 32-bit number.
pub open spec fn wrapped_distance(a: u32, b: u32) -> int {
    let d = (b - a) % 0x1_0000_0000;
    if d < 0x8000_0000 {
        d
    } else {
        d - 0x1_0000_0000
    }
}

// ── Keeping the phase across a restart ──────────────────────────────────────

/// Slots between writes of the live phase: five minutes.
pub const LIVE_PHASE_EVERY_SLOTS: u32 = 20;

/// A grid phase to persist.
#[derive(Debug, PartialEq, Eq)]
pub struct LiveFix {
    pub offset_us: i32,
    pub period_s: u64,
    pub epoch_at_fix: i64,
}

/// When the live phase was last written; `u32::MAX` for never.
#[derive(Debug)]
pub struct LivePhase {
    last: u32,
}

impl View for LivePhase {
    type V = u32;

    closed spec fn view(&self) -> u32 {
        self.last
    }
}

/// Slots since `last`, on a wrapping counter.
pub open spec fn slots_since(slot_idx: u32, last: u32) -> int {
    (slot_idx - last) % 0x1_0000_0000
}

/// The live phase is to be written: the air owns the grid, the clock is
/// known, and the last write is long enough ago.
pub open spec fn live_phase_due(lock: GridLock, last: u32, slot_idx: u32, now_ms: Option<u64>) -> bool {
    &&& lock == GridLock::Air
    &&& last == u32::MAX || slots_since(slot_idx, last) >= LIVE_PHASE_EVERY_SLOTS
    &&& now_ms is Some
}

impl LivePhase {
    pub fn new() -> (r: Self)
        ensures
            r@ == u32::MAX,
    {
        LivePhase { last: u32::MAX }
    }

    /// The phase to persist at a boundary `err_ms` off the clock's grid.
    pub fn note(&mut self, lock: GridLock, err_ms: i64, slot_idx: u32, now_ms: Option<u64>) -> (r:
        Option<LiveFix>)
        requires
            -2_147_483 <= err_ms <= 2_147_483,
        ensures
            r == if live_phase_due(lock, old(self)@, slot_idx, now_ms) {
                Some(
                    LiveFix {
                        offset_us: (err_ms * 1000) as i32,
                        period_s: SLOT_SECS,
                        epoch_at_fix: (now_ms->0 / 1000) as i64,
                    },
                )
            } else {
                None
            },
            final(self)@ == if r is Some {
                slot_idx
            } else {
                old(self)@
            },
    {
        if lock != GridLock::Air {
            return None;
        }
        if self.last != u32::MAX && slot_idx.wrapping_sub(self.last) < LIVE_PHASE_EVERY_SLOTS {
            return None;
        }
        match now_ms {
            Some(ms) => {
                self.last = slot_idx;
                Some(
                    LiveFix {
                        offset_us: (err_ms * 1000) as i32,
                        period_s: SLOT_SECS,
                        epoch_at_fix: (ms / 1000) as i64,
                    },
                )
            },
            None => None,
        }
    }
}

// ── What decides the next slot ──────────────────────────────────────────────

/// One authority decides: UTC while the clock is disciplined, else an
/// acquisition, else the air; with none of them a slot is fifteen seconds.
pub proof fn law_one_authority_decides(
    remain: Option<usize>,
    phase: Option<i64>,
    acq: int,
    air: int,
    other_acq: int,
    other_air: int,
)
    ensures
        planned(true, remain, phase, acq, air) == planned(true, remain, phase, other_acq, other_air),
        acq != 0 ==> planned(false, remain, phase, acq, air) == planned(
            false,
            None,
            None,
            acq,
            other_air,
        ),
        planned(false, remain, phase, 0, 0) == 180_000,
        planned(true, None, phase, acq, air) == 180_000,
        60_000 <= 180_000 + air <= 200_000 ==> planned(false, remain, phase, 0, air) == 180_000
            + air,
        planned(false, remain, phase, 0, air) >= 60_000 || air == 0,
        planned(false, remain, phase, 0, air) <= 200_000,
{
}

/// Within the dead zone a phase error of the last slot, of half a millisecond
/// or more, is taken out: a grid whose next boundary was `grid` samples away
/// when the clock's was `clock` away has its boundary, one planned slot
/// later, where the clock has one. A smaller error is left.
pub proof fn law_a_phase_error_is_taken_out(remain: int, grid: int, clock: int)
    requires
        0 <= remain <= 2_400 || 177_600 <= remain <= 180_000,
        -2_400 <= nearest(grid - clock, 180_000) <= 2_400,
    ensures
        ({
            let e = nearest(grid - clock, 180_000);
            let next = utc_target(remain, Some(e as i64));
            if -6 < e < 6 {
                next == 180_000
            } else {
                (grid + next - clock) % 180_000 == 0
            }
        }),
{
    let e = nearest(grid - clock, 180_000);
    law_fold_keeps_the_phase(grid - clock, 180_000);
    assert((grid - clock - e) % 180_000 == 0);
    assert((grid + (180_000 - e) - clock) % 180_000 == 0);
}

/// The least of the errors seen is kept.
pub proof fn law_the_least_error_is_kept(best: Option<i64>, e: int)
    requires
        i64::MIN <= e <= i64::MAX,
    ensures
        least(best, e) is Some,
        least(best, e)->0 <= e,
        best is Some ==> least(best, e)->0 <= best->0,
        least(best, e)->0 == e || best == least(best, e),
{
}

/// The anchored boundary is the first one of the clock's that is not behind
/// what has come in, for a block and a wait of less than two slots; it is
/// counted from the end of the block.
pub proof fn law_the_anchor_is_the_next_boundary(before: int, n: int, remain: int)
    requires
        0 <= before,
        0 <= n,
        0 <= remain,
        n + remain < 2 * 180_000,
    ensures
        anchor_target(before, n, remain) <= before + 180_000,
        n + remain < 180_000 ==> anchor_target(before, n, remain) == before + n + remain,
{
}

/// A persisted fix moves the boundary by its own length, twelve samples to a
/// millisecond, up to whole slots.
pub proof fn law_a_fix_moves_the_boundary(remain: int, ms: int)
    requires
        0 <= remain,
        -2_147_483 < ms <= 2_147_483,
    ensures
        with_fix(remain, i32::MIN) == remain,
        0 <= with_fix(remain, (1_000 * ms) as i32) < 180_000,
        (with_fix(remain, (1_000 * ms) as i32) - remain - 12 * ms) % 180_000 == 0,
{
    let us = (1_000 * ms) as i32;
    assert(us == 1_000 * ms);
    assert(us != i32::MIN);
    assert(toward_zero(us * 12, 1000) == 12 * ms);
    let x = remain + 12 * ms;
    let r = x % 180_000;
    assert((r - x) % 180_000 == 0);
}

/// A distance on wrapping counters is what has to be added to get from one
/// to the other, at most half a turn either way.
pub proof fn law_distances_lead_there(a: u32, b: u32)
    ensures
        (a + wrapped_distance(a, b) - b) % 0x1_0000_0000 == 0,
        -0x8000_0000 <= wrapped_distance(a, b) < 0x8000_0000,
{
}

/// The live phase is kept only where the air owns the grid and the clock is
/// known: at once the first time, and then twenty slots after the last time,
/// though the count of slots wraps.
pub proof fn law_the_live_phase_is_kept_now_and_then(
    lock: GridLock,
    last: u32,
    slots: u32,
    slot_idx: u32,
    now_ms: Option<u64>,
)
    requires
        slot_idx == (last + slots) % 0x1_0000_0000,
    ensures
        lock != GridLock::Air || now_ms is None ==> !live_phase_due(lock, last, slot_idx, now_ms),
        lock == GridLock::Air && now_ms is Some ==> live_phase_due(lock, last, slot_idx, now_ms)
            == (last == 0xffff_ffff || slots >= 20),
{
}

/// An anchored slot has an end in front of its beginning, and one that would
/// be longer than a slot by a whole one is not.
pub proof fn law_an_anchored_slot_has_a_length(before: int, n: int, remain: int)
    requires
        0 <= before,
        0 <= n,
        0 <= remain,
        before + n + remain > 0,
    ensures
        anchor_target(before, n, remain) > 0,
        n + remain >= 180_000 && before + n + remain > 180_000 ==> anchor_target(before, n, remain)
            == before + n + remain - 180_000,
        n + remain < 180_000 || before + n + remain == 180_000 ==> anchor_target(before, n, remain)
            == before + n + remain,
{
}

}
