//! Reading the radio's audio: one session from the stream's start to its
//! end, what it measured, and whether to try again.

use crate::uac::sim::{sample, sample_le};
use vstd::prelude::*;

verus! {

/// How long the device may be silent before the session is over.
pub const STALL_TIMEOUT_MS: u64 = 3_000;

/// Re-opens allowed without audio in between.
pub const REOPEN_MAX_ATTEMPTS: u32 = 30;

/// A sample this loud counts as clipped.
pub const CLIP_LEVEL: i32 = 32_000;

// ── Samples ─────────────────────────────────────────────────────────────────

/// The left channel of interleaved stereo.
pub open spec fn left_of(bytes: Seq<u8>) -> Seq<i16> {
    Seq::new(bytes.len() / 4, |i: int| sample(bytes[4 * i], bytes[4 * i + 1]) as i16)
}

/// The left channel of the first `bytes_read` bytes: 16-bit stereo, low byte
/// first.
pub fn left_channel(buf: &[u8], bytes_read: usize) -> (r: Vec<i16>)
    requires
        bytes_read <= buf.len(),
    ensures
        r@ == left_of(buf@.take(bytes_read as int)),
{
    let n: usize = bytes_read / 4;
    let mut out: Vec<i16> = Vec::new();
    let mut i: usize = 0;
    while i < n
        invariant
            i <= n,
            n == bytes_read / 4,
            bytes_read <= buf@.len(),
            out@.len() == i,
            forall|k: int| 0 <= k < i ==> #[trigger] out@[k] == sample(buf@[4 * k], buf@[4 * k + 1]),
        decreases n - i,
    {
        out.push(sample_le(buf[4 * i], buf[4 * i + 1]));
        i += 1;
    }
    assert(out@ =~= left_of(buf@.take(bytes_read as int)));
    out
}

/// How loud a sample is.
pub open spec fn loudness(v: i16) -> int {
    if v >= 0 {
        v as int
    } else {
        -(v as int)
    }
}

/// What was heard since the last report.
#[derive(Debug, Clone, Copy, PartialEq, Eq, Structural)]
pub struct Levels {
    pub out_samples: u32,
    /// The loudest sample.
    pub peak: i32,
    pub sum_sq: u64,
    pub clipped: u32,
}

/// The loudest of the samples, or `floor`.
pub open spec fn loudest(samples: Seq<i16>, floor: int) -> int
    decreases samples.len(),
{
    if samples.len() == 0 {
        floor
    } else {
        let m = loudest(samples.drop_last(), floor);
        if loudness(samples.last()) > m {
            loudness(samples.last())
        } else {
            m
        }
    }
}

pub open spec fn energy(samples: Seq<i16>) -> int
    decreases samples.len(),
{
    if samples.len() == 0 {
        0
    } else {
        energy(samples.drop_last()) + loudness(samples.last()) * loudness(samples.last())
    }
}

pub open spec fn clips(samples: Seq<i16>) -> int
    decreases samples.len(),
{
    if samples.len() == 0 {
        0
    } else {
        clips(samples.drop_last()) + if loudness(samples.last()) >= CLIP_LEVEL {
            1int
        } else {
            0int
        }
    }
}

/// The figures are no larger than that many samples can make them.
pub open spec fn levels_ok(l: Levels) -> bool {
    &&& l.sum_sq <= l.out_samples * 0x4000_0000
    &&& l.clipped <= l.out_samples
    &&& 0 <= l.peak <= 0x8000
}

impl Levels {
    pub fn new() -> (r: Self)
        ensures
            r == (Levels { out_samples: 0, peak: 0, sum_sq: 0, clipped: 0 }),
            levels_ok(r),
    {
        Levels { out_samples: 0, peak: 0, sum_sq: 0, clipped: 0 }
    }

    /// Counts a block in.
    pub fn count(&mut self, samples: &[i16])
        requires
            levels_ok(*old(self)),
            old(self).out_samples + samples.len() <= u32::MAX,
        ensures
            final(self).out_samples == old(self).out_samples + samples.len(),
            final(self).peak == loudest(samples@, old(self).peak as int),
            final(self).sum_sq == old(self).sum_sq + energy(samples@),
            final(self).clipped == old(self).clipped + clips(samples@),
            levels_ok(*final(self)),
    {
        let ghost start = *self;
        let n: usize = samples.len();
        let mut i: usize = 0;
        assert(samples@.take(0) =~= Seq::<i16>::empty());
        while i < n
            invariant
                i <= n,
                n == samples@.len(),
                start.out_samples + n <= u32::MAX,
                self.out_samples == start.out_samples + i,
                self.peak == loudest(samples@.take(i as int), start.peak as int),
                self.sum_sq == start.sum_sq + energy(samples@.take(i as int)),
                self.clipped == start.clipped + clips(samples@.take(i as int)),
                levels_ok(*self),
            decreases n - i,
        {
            let v: i32 = samples[i] as i32;
            let a: i32 = if v >= 0 {
                v
            } else {
                -v
            };
            proof {
                assert(samples@.take(i + 1).drop_last() =~= samples@.take(i as int));
                assert(samples@.take(i + 1).last() == samples@[i as int]);
                assert(a * a <= 0x4000_0000) by (nonlinear_arith)
                    requires
                        0 <= a <= 0x8000,
                ;
                assert(a * a >= 0) by (nonlinear_arith);
            }
            if a > self.peak {
                self.peak = a;
            }
            if a >= CLIP_LEVEL {
                self.clipped = self.clipped + 1;
            }
            self.sum_sq = self.sum_sq + a as u64 * a as u64;
            self.out_samples = self.out_samples + 1;
            i += 1;
        }
        assert(samples@.take(n as int) =~= samples@);
    }

    /// The mean square of the samples, 0 for none.
    pub fn mean_square(&self) -> (r: u64)
        ensures
            r == if self.out_samples == 0 {
                0
            } else {
                self.sum_sq as int / self.out_samples as int
            },
    {
        if self.out_samples > 0 {
            self.sum_sq / self.out_samples as u64
        } else {
            0
        }
    }
}

/// Digital silence reads as no level at all, however much of it comes.
pub proof fn law_silence_has_no_level(samples: Seq<i16>)
    requires
        forall|i: int| 0 <= i < samples.len() ==> #[trigger] samples[i] == 0,
    ensures
        loudest(samples, 0) == 0,
        energy(samples) == 0,
        clips(samples) == 0,
    decreases samples.len(),
{
    if samples.len() > 0 {
        let t = samples.drop_last();
        assert forall|i: int| 0 <= i < t.len() implies #[trigger] t[i] == 0 by {
            assert(samples[i] == 0);
        }
        law_silence_has_no_level(t);
        assert(samples[samples.len() - 1] == 0);
    }
}

// ── Timing ──────────────────────────────────────────────────────────────────

/// How long something took, in microseconds, kept to what a counter holds.
pub open spec fn clamped_us(us: int) -> int {
    if us < 0 {
        0
    } else if us > u32::MAX {
        u32::MAX as int
    } else {
        us
    }
}

fn clamp_us(us: i128) -> (r: u32)
    ensures
        r == clamped_us(us as int),
{
    if us < 0 {
        0
    } else if us > u32::MAX as i128 {
        u32::MAX
    } else {
        us as u32
    }
}

/// How long handing chunks on blocked the reader since the last report: the
/// longest and, wrapping, the total.
#[derive(Debug, Clone, Copy, PartialEq, Eq, Structural)]
pub struct BlockTimes {
    pub max_us: u32,
    pub sum_us: u32,
}

impl BlockTimes {
    pub fn new() -> (r: Self)
        ensures
            r == (BlockTimes { max_us: 0, sum_us: 0 }),
    {
        BlockTimes { max_us: 0, sum_us: 0 }
    }

    pub fn note(&mut self, start_us: i64, end_us: i64)
        ensures
            ({
                let dt = clamped_us(end_us - start_us);
                &&& final(self).sum_us == (old(self).sum_us + dt) % 0x1_0000_0000
                &&& final(self).max_us == if dt > old(self).max_us {
                    dt
                } else {
                    old(self).max_us as int
                }
            }),
    {
        let dt: u32 = clamp_us(end_us as i128 - start_us as i128);
        self.sum_us = self.sum_us.wrapping_add(dt);
        if dt > self.max_us {
            self.max_us = dt;
        }
    }
}

// ── A session ───────────────────────────────────────────────────────────────

/// A second's report.
#[derive(Debug, Clone, Copy, PartialEq, Eq, Structural)]
pub struct Tick {
    /// Bytes since the last report.
    pub bytes: u32,
    pub packets: u32,
    pub errors: u32,
    pub interval_ms: u64,
    pub levels: Levels,
    pub gap_max_us: u32,
    pub timeouts: u32,
}

/// What to do next.
#[derive(Debug, Clone, Copy, PartialEq, Eq, Structural)]
pub enum Step {
    /// The device is gone.
    Disconnected,
    /// No audio for this long: the session is over, a fresh one may do.
    Stalled { silent_ms: u64 },
    Read,
}

/// How a read ended.
#[derive(Debug, Clone, Copy, PartialEq, Eq, Structural)]
pub enum ReadOutcome {
    Data { bytes: u32 },
    /// Nothing there yet.
    Timeout,
    /// The stream is broken.
    Failed,
}

/// What to do after a read.
#[derive(Debug, Clone, Copy, PartialEq, Eq, Structural)]
pub enum AfterRead {
    /// There is audio to process.
    Process,
    /// Nothing came; go on.
    Again,
    /// The session is over, a fresh one may do.
    End,
}

/// One session of reading.
#[derive(Debug, Clone, Copy, PartialEq, Eq, Structural)]
pub struct Session {
    /// Bytes read, wrapping.
    pub rx_bytes: u32,
    pub rx_packets: u32,
    pub rx_errors: u32,
    /// Reads that found nothing since the last report.
    pub timeouts: u32,
    /// The longest gap between two reads since the last report.
    pub gap_max_us: u32,
    pub levels: Levels,
    pub last_log_ms: u64,
    /// When audio last arrived.
    pub last_data_ms: u64,
    pub last_bytes: u32,
    /// When the last read ended; 0 before the first.
    pub last_read_us: i64,
}

/// Milliseconds since, none if the clock went back.
pub open spec fn elapsed(now: u64, then: u64) -> int {
    if now > then {
        now - then
    } else {
        0
    }
}

fn elapsed_ms(now: u64, then: u64) -> (r: u64)
    ensures
        r == elapsed(now, then),
{
    if now > then {
        now - then
    } else {
        0
    }
}

/// A counter one further, wrapping.
pub open spec fn plus_one(n: u32) -> u32 {
    if n < u32::MAX {
        (n + 1) as u32
    } else {
        0
    }
}

/// A report is due.
pub open spec fn tick_due(s: Session, now_ms: u64) -> bool {
    elapsed(now_ms, s.last_log_ms) >= 1000
}

/// The report.
pub open spec fn tick_of(s: Session, now_ms: u64) -> Tick {
    Tick {
        bytes: ((s.rx_bytes - s.last_bytes) % 0x1_0000_0000) as u32,
        packets: s.rx_packets,
        errors: s.rx_errors,
        interval_ms: elapsed(now_ms, s.last_log_ms) as u64,
        levels: s.levels,
        gap_max_us: s.gap_max_us,
        timeouts: s.timeouts,
    }
}

/// The session after a report.
pub open spec fn reported(s: Session, now_ms: u64) -> Session {
    Session {
        timeouts: 0,
        gap_max_us: 0,
        levels: Levels { out_samples: 0, peak: 0, sum_sq: 0, clipped: 0 },
        last_log_ms: now_ms,
        last_bytes: s.rx_bytes,
        ..s
    }
}

/// What to do at the top of the loop.
pub open spec fn step_of(s: Session, now_ms: u64, stop_requested: bool) -> Step {
    if stop_requested {
        Step::Disconnected
    } else if elapsed(now_ms, s.last_data_ms) >= STALL_TIMEOUT_MS {
        Step::Stalled { silent_ms: elapsed(now_ms, s.last_data_ms) as u64 }
    } else {
        Step::Read
    }
}

impl Session {
    pub fn new(now_ms: u64) -> (r: Self)
        ensures
            r == (Session {
                rx_bytes: 0,
                rx_packets: 0,
                rx_errors: 0,
                timeouts: 0,
                gap_max_us: 0,
                levels: Levels { out_samples: 0, peak: 0, sum_sq: 0, clipped: 0 },
                last_log_ms: now_ms,
                last_data_ms: now_ms,
                last_bytes: 0,
                last_read_us: 0,
            }),
    {
        Session {
            rx_bytes: 0,
            rx_packets: 0,
            rx_errors: 0,
            timeouts: 0,
            gap_max_us: 0,
            levels: Levels::new(),
            last_log_ms: now_ms,
            last_data_ms: now_ms,
            last_bytes: 0,
            last_read_us: 0,
        }
    }

    /// The top of the loop: a disconnect ends the session at once, a report
    /// comes once a second whether or not audio flows, and silence for too
    /// long ends the session.
    pub fn poll(&mut self, now_ms: u64, stop_requested: bool) -> (r: (Option<Tick>, Step))
        ensures
            r.1 == step_of(*old(self), now_ms, stop_requested),
            r.0 == if !stop_requested && tick_due(*old(self), now_ms) {
                Some(tick_of(*old(self), now_ms))
            } else {
                None
            },
            *final(self) == if r.0 is Some {
                reported(*old(self), now_ms)
            } else {
                *old(self)
            },
    {
        if stop_requested {
            return (None, Step::Disconnected);
        }
        let mut tick: Option<Tick> = None;
        let interval: u64 = elapsed_ms(now_ms, self.last_log_ms);
        if interval >= 1000 {
            tick = Some(
                Tick {
                    bytes: self.rx_bytes.wrapping_sub(self.last_bytes),
                    packets: self.rx_packets,
                    errors: self.rx_errors,
                    interval_ms: interval,
                    levels: self.levels,
                    gap_max_us: self.gap_max_us,
                    timeouts: self.timeouts,
                },
            );
            self.last_log_ms = now_ms;
            self.last_bytes = self.rx_bytes;
            self.levels = Levels::new();
            self.gap_max_us = 0;
            self.timeouts = 0;
        }
        let silent: u64 = elapsed_ms(now_ms, self.last_data_ms);
        if silent >= STALL_TIMEOUT_MS {
            (tick, Step::Stalled { silent_ms: silent })
        } else {
            (tick, Step::Read)
        }
    }

    /// A read begins: the gap since the last one is noted.
    pub fn read_begins(&mut self, now_us: i64)
        ensures
            *final(self) == (Session {
                gap_max_us: if old(self).last_read_us > 0 && clamped_us(
                    now_us - old(self).last_read_us,
                ) > old(self).gap_max_us {
                    clamped_us(now_us - old(self).last_read_us) as u32
                } else {
                    old(self).gap_max_us
                },
                ..*old(self)
            }),
    {
        if self.last_read_us > 0 {
            let gap: u32 = clamp_us(now_us as i128 - self.last_read_us as i128);
            if gap > self.gap_max_us {
                self.gap_max_us = gap;
            }
        }
    }

    /// A read ended. Finding nothing is routine; any other failure ends the
    /// session.
    pub fn read_ended(&mut self, outcome: ReadOutcome, now_us: i64, now_ms: u64) -> (r: AfterRead)
        ensures
            match outcome {
                ReadOutcome::Timeout => r == AfterRead::Again && *final(self) == (Session {
                    timeouts: plus_one(old(self).timeouts),
                    last_read_us: now_us,
                    ..*old(self)
                }),
                ReadOutcome::Failed => r == AfterRead::End && *final(self) == (Session {
                    rx_errors: plus_one(old(self).rx_errors),
                    ..*old(self)
                }),
                ReadOutcome::Data { bytes } => if bytes == 0 {
                    r == AfterRead::Again && *final(self) == (Session {
                        last_read_us: now_us,
                        ..*old(self)
                    })
                } else {
                    r == AfterRead::Process && *final(self) == (Session {
                        last_read_us: now_us,
                        last_data_ms: now_ms,
                        rx_bytes: ((old(self).rx_bytes + bytes) % 0x1_0000_0000) as u32,
                        rx_packets: plus_one(old(self).rx_packets),
                        ..*old(self)
                    })
                },
            },
    {
        match outcome {
            ReadOutcome::Timeout => {
                self.timeouts = self.timeouts.wrapping_add(1);
                self.last_read_us = now_us;
                AfterRead::Again
            },
            ReadOutcome::Failed => {
                self.rx_errors = self.rx_errors.wrapping_add(1);
                AfterRead::End
            },
            ReadOutcome::Data { bytes } => {
                self.last_read_us = now_us;
                if bytes == 0 {
                    return AfterRead::Again;
                }
                self.last_data_ms = now_ms;
                self.rx_bytes = self.rx_bytes.wrapping_add(bytes);
                self.rx_packets = self.rx_packets.wrapping_add(1);
                AfterRead::Process
            },
        }
    }
}

/// A device that only ever times out is noticed: reads that find nothing do
/// not put the end of the session off.
pub proof fn law_timeouts_do_not_hide_a_stall(s: Session, now_ms: u64, later: Session)
    requires
        later == (Session {
            timeouts: later.timeouts,
            last_read_us: later.last_read_us,
            ..s
        }),
        elapsed(now_ms, s.last_data_ms) >= STALL_TIMEOUT_MS,
    ensures
        step_of(later, now_ms, false) is Stalled,
{
}

/// Bytes counted over a report add up across the counter's wrap.
pub proof fn law_the_report_survives_a_wrap(s: Session, n: u32, now_ms: u64)
    requires
        s.rx_bytes == (s.last_bytes + n) % 0x1_0000_0000,
    ensures
        tick_of(s, now_ms).bytes == n,
{
}

// ── Trying again ────────────────────────────────────────────────────────────

/// One reader at a time, and how often it was re-opened in vain.
#[derive(Debug, Clone, Copy, PartialEq, Eq, Structural)]
pub struct ReaderGate {
    pub active: bool,
    pub reopen_attempts: u32,
}

/// How a session ended, by which the next one starts.
#[derive(Debug, Clone, Copy, PartialEq, Eq, Structural)]
pub enum Leave {
    /// Unplugged; the driver says when it is back.
    Quiet,
    /// Open the interface again.
    Reopen { attempt: u32 },
    /// Too many attempts without audio.
    GiveUp { attempt: u32 },
}

impl ReaderGate {
    pub fn new() -> (r: Self)
        ensures
            r == (ReaderGate { active: false, reopen_attempts: 0 }),
    {
        ReaderGate { active: false, reopen_attempts: 0 }
    }

    /// Lets one reader in; no if there is one already.
    pub fn enter(&mut self) -> (r: bool)
        ensures
            r == !old(self).active,
            *final(self) == (ReaderGate { active: true, ..*old(self) }),
    {
        let free = !self.active;
        self.active = true;
        free
    }

    /// Lets the next one in when a session could not be started.
    pub fn release(&mut self)
        ensures
            *final(self) == (ReaderGate { active: false, ..*old(self) }),
    {
        self.active = false;
    }

    /// A reader leaves; the next one may come in before anything is re-opened.
    pub fn leave(&mut self, reopen: bool) -> (r: Leave)
        requires
            old(self).reopen_attempts < u32::MAX,
        ensures
            !final(self).active,
            final(self).reopen_attempts == old(self).reopen_attempts + if reopen {
                1int
            } else {
                0int
            },
            r == if !reopen {
                Leave::Quiet
            } else if old(self).reopen_attempts >= REOPEN_MAX_ATTEMPTS {
                Leave::GiveUp { attempt: (old(self).reopen_attempts + 1) as u32 }
            } else {
                Leave::Reopen { attempt: (old(self).reopen_attempts + 1) as u32 }
            },
    {
        self.active = false;
        if !reopen {
            return Leave::Quiet;
        }
        self.reopen_attempts = self.reopen_attempts + 1;
        let attempt: u32 = self.reopen_attempts;
        if attempt > REOPEN_MAX_ATTEMPTS {
            Leave::GiveUp { attempt }
        } else {
            Leave::Reopen { attempt }
        }
    }

    /// A report came: audio since the last one means that re-opening worked.
    pub fn reported(&mut self, bytes: u32)
        ensures
            *final(self) == (ReaderGate {
                reopen_attempts: if bytes > 0 {
                    0
                } else {
                    old(self).reopen_attempts
                },
                ..*old(self)
            }),
    {
        if bytes > 0 {
            self.reopen_attempts = 0;
        }
    }
}

/// The device still has to be stopped and closed: not after a disconnect,
/// whenever it was signalled.
pub fn needs_close(disconnected: bool, stop_requested: bool) -> (r: bool)
    ensures
        r == !(disconnected || stop_requested),
{
    !(disconnected || stop_requested)
}

/// Where to go on in a read after the resampler took `consumed` of it and
/// gave `produced`; `None` when the read is used up, or nothing moves.
pub fn resample_next(offset: usize, n: usize, consumed: usize, produced: usize) -> (r: Option<usize>)
    requires
        offset < n,
        consumed <= n - offset,
    ensures
        r == if (consumed == 0 && produced == 0) || offset + consumed == n {
            None::<usize>
        } else {
            Some((offset + consumed) as usize)
        },
{
    if consumed == 0 && produced == 0 {
        return None;
    }
    let next: usize = offset + consumed;
    if next == n {
        None
    } else {
        Some(next)
    }
}

// ── What the figures mean ───────────────────────────────────────────────────

/// The left channel is the first of every two samples, each of two bytes with
/// the low one first.
pub proof fn law_the_left_channel_is_every_other_sample(b: Seq<u8>, k: int)
    requires
        0 <= k < b.len() / 4,
    ensures
        left_of(b).len() == b.len() / 4,
        (left_of(b)[k] - b[4 * k] - 0x100 * b[4 * k + 1]) % 0x1_0000 == 0,
{
    crate::uac::sim::law_samples_are_low_byte_first(b[4 * k], b[4 * k + 1]);
}

/// The peak is no less than any sample is loud, and one of them is as loud,
/// unless an earlier one was.
pub proof fn law_the_peak_is_the_loudest(samples: Seq<i16>, floor: int)
    ensures
        loudest(samples, floor) >= floor,
        forall|i: int|
            0 <= i < samples.len() ==> -loudest(samples, floor) <= #[trigger] samples[i]
                <= loudest(samples, floor),
        loudest(samples, floor) == floor || exists|i: int|
            0 <= i < samples.len() && (#[trigger] samples[i] == loudest(samples, floor)
                || -samples[i] == loudest(samples, floor)),
    decreases samples.len(),
{
    if samples.len() > 0 {
        let t = samples.drop_last();
        law_the_peak_is_the_loudest(t, floor);
        let m = loudest(samples, floor);
        assert(samples[samples.len() - 1] == samples.last());
        assert forall|i: int| 0 <= i < samples.len() implies -m <= #[trigger] samples[i] <= m by {
            if i < t.len() {
                assert(t[i] == samples[i]);
            }
        }
        if m != floor && m == loudest(t, floor) {
            let i = choose|i: int|
                0 <= i < t.len() && (#[trigger] t[i] == loudest(t, floor) || -t[i] == loudest(
                    t,
                    floor,
                ));
            assert(samples[i] == t[i]);
        }
    }
}

/// The level grows by the square of each sample, and the count of clipped
/// ones by those that reach 32000 either way.
pub proof fn law_each_sample_counts(samples: Seq<i16>, v: i16)
    ensures
        energy(samples.push(v)) == energy(samples) + v * v,
        clips(samples.push(v)) == clips(samples) + (if v >= 32_000 || v <= -32_000 {
            1int
        } else {
            0
        }),
        energy(Seq::<i16>::empty()) == 0,
        clips(Seq::<i16>::empty()) == 0,
{
    let s = samples.push(v);
    assert(s.drop_last() =~= samples);
    let a = loudness(v);
    assert(a * a == v * v) by (nonlinear_arith)
        requires
            a == v || a == -v,
    ;
}

/// A report comes when a second has gone by, covers what came since the one
/// before, and begins the next one empty.
pub proof fn law_a_report_covers_its_second(s: Session, now_ms: u64, later_ms: u64)
    requires
        now_ms >= s.last_log_ms,
        later_ms >= now_ms,
    ensures
        tick_due(s, now_ms) <==> now_ms >= s.last_log_ms + 1_000,
        tick_due(reported(s, now_ms), later_ms) <==> later_ms >= now_ms + 1_000,
        ({
            let t = tick_of(reported(s, now_ms), later_ms);
            &&& t.bytes == 0
            &&& t.timeouts == 0
            &&& t.gap_max_us == 0
            &&& t.levels.out_samples == 0 && t.levels.peak == 0 && t.levels.sum_sq == 0
                && t.levels.clipped == 0
            &&& t.packets == s.rx_packets && t.errors == s.rx_errors
            &&& t.interval_ms == later_ms - now_ms
        }),
        reported(s, now_ms).last_data_ms == s.last_data_ms,
{
}

/// A session goes on while audio came within the limit, and ends at once when
/// the device is gone.
pub proof fn law_a_session_ends_on_silence(s: Session, now_ms: u64)
    requires
        now_ms >= s.last_data_ms,
    ensures
        step_of(s, now_ms, true) == Step::Disconnected,
        step_of(s, now_ms, false) == Step::Read <==> now_ms < s.last_data_ms + STALL_TIMEOUT_MS,
        step_of(s, now_ms, false) matches Step::Stalled { silent_ms } ==> silent_ms == now_ms
            - s.last_data_ms,
{
}

}
