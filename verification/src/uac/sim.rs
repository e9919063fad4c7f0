//! A radio, faked: a recording fed to the sink at real-time pace.
//!
//! The recording loops over a whole number of slots, its first sample is put
//! on a boundary of the clock, and at the top of every pass it is put back
//! there if the clock has moved.

use crate::uac::slot_grid::toward_zero;
use vstd::prelude::*;
use vstd::slice::slice_subrange;
use vstd::slice::slice_to_vec;

verus! {

/// Bytes of a `.wav` file's header.
pub const WAV_HEADER: usize = 44;

/// Samples handed over at a time.
pub const BLK: usize = 256;

/// Misalignment that is corrected: more than 1 ms.
pub const REALIGN_SAMPLES: i64 = 12;

/// How long to wait for a clock before feeding without one, in microseconds.
pub const CLOCK_WAIT_US: i64 = 10_000_000;

/// When a test step of the clock falls due, in microseconds of feeding.
pub const CLOCK_STEP_AT_US: i64 = 90_000_000;

/// Where a recording comes from.
#[derive(Clone, Copy)]
pub enum SimSource {
    /// A `.wav` file; the header is skipped.
    Wav(&'static [u8]),
    /// Raw little-endian samples at 12 kHz, no header.
    Pcm(&'static [u8]),
}

/// Whether a recording is running, and where its current pass began.
#[derive(Debug)]
pub struct SimStatus {
    pub feeding: bool,
    /// Index into the stream of samples handed over, wrapping; `u32::MAX`
    /// until the first pass.
    pub pass_start: u32,
}

impl SimStatus {
    pub fn new() -> (r: Self)
        ensures
            !r.feeding,
            r.pass_start == u32::MAX,
    {
        SimStatus { feeding: false, pass_start: u32::MAX }
    }
}

/// True once a recording is running.
pub fn sim_feeding(status: &SimStatus) -> (r: bool)
    ensures
        r == status.feeding,
{
    status.feeding
}

// ── The recording ───────────────────────────────────────────────────────────

/// A sample, low byte first.
pub open spec fn sample(lo: u8, hi: u8) -> int {
    let v = lo + 256 * hi;
    if v < 0x8000 {
        v
    } else {
        v - 0x1_0000
    }
}

pub fn sample_le(lo: u8, hi: u8) -> (r: i16)
    ensures
        r == sample(lo, hi),
{
    let v: i32 = lo as i32 + 256 * hi as i32;
    if v < 0x8000 {
        v as i16
    } else {
        (v - 0x1_0000) as i16
    }
}

/// The samples of a run of bytes; an odd byte at the end is left out.
pub open spec fn samples_of(bytes: Seq<u8>) -> Seq<i16> {
    Seq::new(bytes.len() / 2, |i: int| sample(bytes[2 * i], bytes[2 * i + 1]) as i16)
}

/// The bytes that hold samples.
pub open spec fn payload(src: SimSource) -> Seq<u8> {
    match src {
        SimSource::Wav(w) => w@.skip(WAV_HEADER as int),
        SimSource::Pcm(p) => p@,
    }
}

/// The samples of a recording.
pub fn sim_samples(src: SimSource) -> (r: Vec<i16>)
    requires
        src matches SimSource::Wav(w) ==> w@.len() >= WAV_HEADER,
    ensures
        r@ == samples_of(payload(src)),
{
    let bytes: &[u8] = match src {
        SimSource::Wav(w) => slice_subrange(w, WAV_HEADER, w.len()),
        SimSource::Pcm(p) => p,
    };
    assert(bytes@ =~= payload(src));
    let total: usize = bytes.len();
    let n: usize = total / 2;
    let mut out: Vec<i16> = Vec::new();
    let mut i: usize = 0;
    while i < n
        invariant
            i <= n,
            total == bytes@.len(),
            n == total / 2,
            out@.len() == i,
            forall|k: int| 0 <= k < i ==> #[trigger] out@[k] == sample(
                bytes@[2 * k],
                bytes@[2 * k + 1],
            ),
        decreases n - i,
    {
        out.push(sample_le(bytes[2 * i], bytes[2 * i + 1]));
        i += 1;
    }
    assert(out@ =~= samples_of(bytes@));
    out
}

/// The length of a pass: as many whole slots as there are, or all of a
/// recording shorter than one.
pub open spec fn pass_len(n: int, slot: int) -> int {
    if n >= slot {
        n / slot * slot
    } else {
        n
    }
}

pub fn loop_len(n: usize, slot: usize) -> (r: usize)
    requires
        slot > 0,
    ensures
        r == pass_len(n as int, slot as int),
        r <= n,
{
    if n >= slot {
        let q: usize = n / slot;
        assert(q * slot <= n) by (nonlinear_arith)
            requires
                q == n / slot,
                slot > 0,
        ;
        q * slot
    } else {
        n
    }
}

/// A pass is a whole number of slots, so that the recording does not slide
/// under the slot grid, and it leaves out less than a slot.
pub proof fn law_a_pass_is_whole_slots(n: int, slot: int)
    requires
        0 < slot <= n,
    ensures
        pass_len(n, slot) % slot == 0,
        n - slot < pass_len(n, slot) <= n,
        pass_len(n, slot) > 0,
{
    let q = n / slot;
    vstd::arithmetic::div_mod::lemma_fundamental_div_mod(n, slot);
    vstd::arithmetic::div_mod::lemma_mod_multiples_basic(q, slot);
    assert(q >= 1 && q * slot == slot * q && q * slot > 0) by (nonlinear_arith)
        requires
            q == n / slot,
            0 < slot <= n,
    ;
}

// ── The clock ───────────────────────────────────────────────────────────────

/// Samples at 12 kHz from `us` to the next multiple of the period.
pub fn samples_to_next_slot_12k_from_us(us: u64, period_ms: u64) -> (r: i64)
    requires
        0 < period_ms <= 0xffff_ffff,
    ensures
        r == (period_ms * 1000 - us as int % (period_ms * 1000)) * 12 / 1000,
        0 <= r <= period_ms * 12,
{
    let period_us: u64 = period_ms * 1000;
    let left: u64 = period_us - us % period_us;
    (left * 12 / 1000) as i64
}

/// Still waiting for a clock.
pub fn waiting_for_clock(unset: bool, waited_us: i64) -> (r: bool)
    ensures
        r == (unset && waited_us < CLOCK_WAIT_US),
{
    unset && waited_us < CLOCK_WAIT_US
}

/// When the recording's first sample is due: the next boundary of the
/// clock, or now if there is none, and then the deliberate offset.
pub open spec fn start_time(now_us: int, utc_us: Option<u64>, slot: int, lead: int) -> int {
    let period = slot / 12 * 1000;
    let wait = match utc_us {
        Some(u) => period - u as int % period,
        None => 0,
    };
    now_us + wait + lead * 1000 / 12
}

pub fn start_at(now_us: i64, utc_us: Option<u64>, slot: usize, lead: usize) -> (r: i64)
    requires
        12 <= slot <= 0xffff_ffff,
        now_us + slot / 12 * 1000 + lead * 1000 / 12 <= i64::MAX,
    ensures
        r == start_time(now_us as int, utc_us, slot as int, lead as int),
{
    let period: u64 = (slot / 12) as u64 * 1000;
    let wait: u64 = match utc_us {
        Some(u) => period - u % period,
        None => 0,
    };
    assert(wait <= period);
    let lead_us: u128 = lead as u128 * 1000 / 12;
    let at: i128 = now_us as i128 + wait as i128 + lead_us as i128;
    at as i64
}

/// With no deliberate offset the recording starts on a boundary of the
/// clock: waiting brings the clock to a multiple of the period.
pub proof fn law_the_recording_starts_on_a_boundary(now_us: int, utc_us: u64, slot: int)
    requires
        slot >= 12,
    ensures
        ({
            let wait = start_time(now_us, Some(utc_us), slot, 0) - now_us;
            let period = slot / 12 * 1000;
            &&& 0 < wait <= period
            &&& (utc_us + wait) % period == 0
        }),
{
    let period = slot / 12 * 1000;
    let u = utc_us as int;
    vstd::arithmetic::div_mod::lemma_fundamental_div_mod(u, period);
    let q = u / period;
    assert(u + (period - u % period) == (q + 1) * period) by (nonlinear_arith)
        requires
            u == period * q + u % period,
    ;
    vstd::arithmetic::div_mod::lemma_mod_multiples_basic(q + 1, period);
}

/// Whole ticks to sleep so as not to wake before `left_us` is over; `None`
/// when it is over already.
pub fn ticks_until(left_us: i64, tick_us: i64) -> (r: Option<u32>)
    requires
        tick_us > 0,
        left_us + tick_us <= i64::MAX,
        left_us <= tick_us * 0xffff_ffff,
    ensures
        match r {
            Some(n) => left_us > 0 && (n - 1) * tick_us < left_us <= n * tick_us,
            None => left_us <= 0,
        },
{
    if left_us <= 0 {
        return None;
    }
    let sum: u64 = left_us as u64 + tick_us as u64 - 1;
    let n: u64 = sum / tick_us as u64;
    proof {
        let t = tick_us as int;
        let l = left_us as int;
        vstd::arithmetic::div_mod::lemma_fundamental_div_mod(l + t - 1, t);
        let q = n as int;
        assert((q - 1) * t < l <= q * t) by (nonlinear_arith)
            requires
                l + t - 1 == t * q + (l + t - 1) % t,
                0 <= (l + t - 1) % t < t,
        ;
        assert(q <= 0xffff_ffff) by (nonlinear_arith)
            requires
                (q - 1) * t < l,
                l <= t * 0xffff_ffff,
                t > 0,
        ;
    }
    Some(n as u32)
}

/// The time of day `step_ms` away from `sec` seconds and `usec`
/// microseconds, as seconds and microseconds.
pub fn stepped_time(sec: i64, usec: i64, step_ms: i64) -> (r: (i64, i64))
    ensures
        ({
            let us = sec * 1_000_000 + usec + step_ms * 1000;
            let q = toward_zero(us, 1_000_000);
            i64::MIN <= q <= i64::MAX ==> r.0 == q && r.1 == us - q * 1_000_000
        }),
{
    let us: i128 = sec as i128 * 1_000_000 + usec as i128 + step_ms as i128 * 1000;
    let m: i128 = if us >= 0 {
        us
    } else {
        -us
    };
    let q: i128 = m.checked_div_euclid(1_000_000).unwrap();
    let s: i128 = m - q * 1_000_000;
    if us >= 0 {
        (q as i64, s as i64)
    } else {
        ((-q) as i64, (-s) as i64)
    }
}

// ── The feed ────────────────────────────────────────────────────────────────

/// The recording being fed.
pub struct SimFeed {
    pcm: Vec<i16>,
    loop_len: usize,
    slot: usize,
    /// The deliberate offset, in samples.
    offset: usize,
    /// When the recording's first sample was due.
    t0: i64,
    /// Samples due since then.
    fed: u64,
    /// Where in the recording the next block starts.
    src: usize,
    /// Samples handed over, wrapping.
    pushed_total: u32,
    /// Where in the recording the last block started.
    last_src_start: usize,
    pass_start: u32,
    no_clock: bool,
    step_ms: Option<i64>,
    stepped: bool,
}

pub struct FeedView {
    pub pcm: Seq<i16>,
    pub loop_len: int,
    pub slot: int,
    pub offset: int,
    pub t0: int,
    pub fed: int,
    pub src: int,
    pub pushed: u32,
    pub last: int,
    pub pass_start: u32,
    pub no_clock: bool,
    pub step_ms: Option<i64>,
    pub stepped: bool,
}

impl View for SimFeed {
    type V = FeedView;

    closed spec fn view(&self) -> FeedView {
        FeedView {
            pcm: self.pcm@,
            loop_len: self.loop_len as int,
            slot: self.slot as int,
            offset: self.offset as int,
            t0: self.t0 as int,
            fed: self.fed as int,
            src: self.src as int,
            pushed: self.pushed_total,
            last: self.last_src_start as int,
            pass_start: self.pass_start,
            no_clock: self.no_clock,
            step_ms: self.step_ms,
            stepped: self.stepped,
        }
    }
}

/// The next block is inside the recording.
pub open spec fn feed_ok(f: FeedView) -> bool {
    &&& 0 < f.slot <= 0xffff_ffff
    &&& 0 <= f.offset < f.slot
    &&& f.loop_len <= f.pcm.len() <= usize::MAX
    &&& 0 <= f.src
    &&& f.src < f.loop_len || f.src == 0
    &&& 0 <= f.fed
    &&& 0 <= f.last
}

/// A new pass begins with the next block.
pub open spec fn new_pass(f: FeedView) -> bool {
    f.src < f.last || f.pushed == 0
}

/// Where the pass began, in the stream of samples handed over, is where the
/// recording's first sample is, or is about to be set.
pub open spec fn tracks_pass(f: FeedView) -> bool {
    &&& new_pass(f) || (f.pass_start + f.src - f.pushed) % 0x1_0000_0000 == 0
    &&& f.src == 0 && f.pushed != 0 ==> f.last + BLK >= f.loop_len
}

/// When the next block's first sample is due.
pub open spec fn due_at(f: FeedView) -> int {
    f.t0 + f.fed * 1_000_000 / 12_000
}

/// How far the top of the pass is from where the clock wants it, in samples,
/// positive when it is early.
pub open spec fn misalignment(f: FeedView, to_boundary: int) -> int {
    let to = (to_boundary + f.offset) % f.slot;
    if to < f.slot / 2 {
        to
    } else {
        to - f.slot
    }
}

/// The feed put back on the clock: an early one waits, a late one skips.
pub open spec fn realigned(f: FeedView, err: int) -> FeedView {
    if -REALIGN_SAMPLES <= err <= REALIGN_SAMPLES {
        f
    } else if err > 0 {
        FeedView { fed: f.fed + err, ..f }
    } else {
        FeedView {
            src: if -err < f.loop_len {
                -err
            } else {
                f.loop_len - 1
            },
            ..f
        }
    }
}

/// Where the next block ends.
pub open spec fn block_end(f: FeedView) -> int {
    if f.src + BLK < f.loop_len {
        f.src + BLK
    } else {
        f.loop_len
    }
}

/// The feed after a block.
pub open spec fn fed_block(f: FeedView) -> FeedView {
    let end = block_end(f);
    FeedView {
        src: if end == f.loop_len {
            0
        } else {
            end
        },
        last: f.src,
        pass_start: if new_pass(f) {
            ((f.pushed - f.src) % 0x1_0000_0000) as u32
        } else {
            f.pass_start
        },
        fed: f.fed + (end - f.src),
        pushed: ((f.pushed + (end - f.src)) % 0x1_0000_0000) as u32,
        ..f
    }
}

/// `a - b` on a wrapping counter.
fn wrapping_back(a: u32, b: usize) -> (r: u32)
    ensures
        r == (a - b) % 0x1_0000_0000,
{
    let d: i128 = a as i128 - b as i128;
    d.checked_rem_euclid(0x1_0000_0000).unwrap() as u32
}

proof fn lemma_block_keeps_track(f: FeedView)
    requires
        feed_ok(f),
        f.loop_len > BLK,
        tracks_pass(f),
    ensures
        tracks_pass(fed_block(f)),
{
    let g = fed_block(f);
    let n = block_end(f) - f.src;
    let m = 0x1_0000_0000int;
    let p = if new_pass(f) {
        (f.pushed - f.src) % m
    } else {
        f.pass_start as int
    };
    assert((p + f.src - f.pushed) % m == 0);
    if g.src != 0 {
        assert((p + (f.src + n) - (f.pushed + n) % m) % m == 0);
    }
}

impl SimFeed {
    /// A feed whose first sample is due at `t0`. A step of `step_ms`, if
    /// any, is applied to the clock once; without a clock the feed is never
    /// put back on it.
    pub fn new(
        src: SimSource,
        slot: usize,
        lead: usize,
        t0: i64,
        no_clock: bool,
        step_ms: Option<i64>,
    ) -> (r: Self)
        requires
            src matches SimSource::Wav(w) ==> w@.len() >= WAV_HEADER,
            0 < slot <= 0xffff_ffff,
        ensures
            r@ == (FeedView {
                pcm: samples_of(payload(src)),
                loop_len: pass_len(samples_of(payload(src)).len() as int, slot as int),
                slot: slot as int,
                offset: lead as int % slot as int,
                t0: t0 as int,
                fed: 0,
                src: 0,
                pushed: 0,
                last: usize::MAX as int,
                pass_start: u32::MAX,
                no_clock,
                step_ms,
                stepped: false,
            }),
            feed_ok(r@),
            tracks_pass(r@),
    {
        let pcm = sim_samples(src);
        let n: usize = pcm.len();
        SimFeed {
            loop_len: loop_len(n, slot),
            pcm,
            slot,
            offset: lead % slot,
            t0,
            fed: 0,
            src: 0,
            pushed_total: 0,
            last_src_start: usize::MAX,
            pass_start: u32::MAX,
            no_clock,
            step_ms,
            stepped: false,
        }
    }

    /// The test step of the clock, when it falls due; once.
    pub fn clock_step(&mut self, now_us: i64) -> (r: Option<i64>)
        ensures
            r == if !old(self)@.stepped && now_us - old(self)@.t0 >= CLOCK_STEP_AT_US {
                old(self)@.step_ms
            } else {
                None
            },
            final(self)@ == (FeedView { stepped: old(self)@.stepped || r is Some, ..old(self)@ }),
    {
        match self.step_ms {
            Some(step) => {
                if !self.stepped && now_us as i128 - self.t0 as i128 >= CLOCK_STEP_AT_US as i128 {
                    self.stepped = true;
                    Some(step)
                } else {
                    None
                }
            },
            None => None,
        }
    }

    /// The next block starts a pass that is to be put on the clock.
    pub fn wants_realign(&self) -> (r: bool)
        ensures
            r == (self@.src == 0 && !self@.no_clock && self@.loop_len == self@.slot),
    {
        self.src == 0 && !self.no_clock && self.loop_len == self.slot
    }

    /// When the next block's first sample is due.
    pub fn due_us(&self) -> (r: i64)
        requires
            self@.fed * 1_000_000 <= u64::MAX,
            due_at(self@) <= i64::MAX,
        ensures
            r == due_at(self@),
    {
        let us: u64 = self.fed * 1_000_000 / 12_000;
        (self.t0 as i128 + us as i128) as i64
    }

    /// The clock at the moment the next block's first sample was due, from
    /// the clock now. A block that is not due yet is taken as due now.
    pub fn clock_when_due(&self, now_us: i64, utc_us: u64) -> (r: u64)
        requires
            self@.fed * 1_000_000 <= u64::MAX,
            due_at(self@) <= i64::MAX,
            now_us - due_at(self@) <= i64::MAX,
        ensures
            ({
                let lag = now_us - due_at(self@);
                let late = if lag > 0 {
                    lag
                } else {
                    0
                };
                r == if utc_us > late {
                    utc_us - late
                } else {
                    0
                }
            }),
    {
        let lag: i128 = now_us as i128 - self.due_us() as i128;
        let late: u64 = if lag > 0 {
            lag as u64
        } else {
            0
        };
        if utc_us > late {
            utc_us - late
        } else {
            0
        }
    }

    /// Back on the clock at the top of a pass, `to_boundary` samples before
    /// the clock's boundary. Returns the correction, 0 for none.
    pub fn realign(&mut self, to_boundary: usize) -> (r: i64)
        requires
            feed_ok(old(self)@),
            old(self)@.src == 0,
            old(self)@.loop_len == old(self)@.slot,
            to_boundary + old(self)@.offset <= usize::MAX,
            old(self)@.fed + old(self)@.slot <= u64::MAX,
        ensures
            ({
                let err = misalignment(old(self)@, to_boundary as int);
                &&& final(self)@ == realigned(old(self)@, err)
                &&& r == if -REALIGN_SAMPLES <= err <= REALIGN_SAMPLES {
                    0
                } else {
                    err
                }
            }),
            feed_ok(final(self)@),
            old(self)@.loop_len > 2 * BLK + 1 && tracks_pass(old(self)@) ==> tracks_pass(final(self)@),
    {
        let to: usize = (to_boundary + self.offset) % self.slot;
        let err: i64 = if to < self.slot / 2 {
            to as i64
        } else {
            to as i64 - self.slot as i64
        };
        if -REALIGN_SAMPLES <= err && err <= REALIGN_SAMPLES {
            return 0;
        }
        if err > 0 {
            self.fed = self.fed + err as u64;
        } else {
            let back: usize = (-err) as usize;
            self.src = if back < self.loop_len {
                back
            } else {
                self.loop_len - 1
            };
        }
        err
    }

    /// The next block.
    pub fn next_block(&mut self) -> (r: Vec<i16>)
        requires
            feed_ok(old(self)@),
            old(self)@.fed + BLK <= u64::MAX,
        ensures
            r@ == old(self)@.pcm.subrange(old(self)@.src, block_end(old(self)@)),
            final(self)@ == fed_block(old(self)@),
            feed_ok(final(self)@),
            old(self)@.loop_len > BLK && tracks_pass(old(self)@) ==> tracks_pass(final(self)@),
    {
        let end: usize = if self.loop_len - self.src > BLK {
            self.src + BLK
        } else {
            self.loop_len
        };
        let ghost f = self@;
        assert(end == block_end(f));
        let block = slice_to_vec(slice_subrange(self.pcm.as_slice(), self.src, end));
        let n: u32 = (end - self.src) as u32;
        if self.src < self.last_src_start || self.pushed_total == 0 {
            self.pass_start = wrapping_back(self.pushed_total, self.src);
        }
        self.last_src_start = self.src;
        self.src = if end == self.loop_len {
            0
        } else {
            end
        };
        self.fed = self.fed + n as u64;
        self.pushed_total = self.pushed_total.wrapping_add(n);
        proof {
            assert(self@ == fed_block(f));
            if f.loop_len > BLK && tracks_pass(f) {
                lemma_block_keeps_track(f);
            }
        }
        block
    }

    /// Where the current pass began.
    pub fn pass_start(&self) -> (r: u32)
        ensures
            r == self@.pass_start,
    {
        self.pass_start
    }
}

/// Putting the feed back on the clock moves the recording by exactly the
/// misalignment: waiting makes it later, skipping makes it earlier.
pub proof fn law_realigning_takes_the_error_out(f: FeedView, to_boundary: int)
    requires
        feed_ok(f),
        f.src == 0,
        f.loop_len == f.slot,
        f.slot > 1,
    ensures
        ({
            let err = misalignment(f, to_boundary);
            let g = realigned(f, err);
            &&& !(-REALIGN_SAMPLES <= err <= REALIGN_SAMPLES) ==> (g.fed - g.src) - (f.fed - f.src)
                == err
            &&& -f.slot - 1 <= 2 * err < f.slot
        }),
{
}

/// Over a pass every sample of the loop is handed over once, in order: the
/// next block starts where this one ended, and after the last one the
/// recording starts over.
pub proof fn law_blocks_follow_each_other(f: FeedView)
    requires
        feed_ok(f),
        f.loop_len > 0,
    ensures
        f.src < block_end(f) <= f.loop_len,
        block_end(f) - f.src <= BLK,
        block_end(f) < f.loop_len ==> fed_block(f).src == block_end(f),
        block_end(f) == f.loop_len ==> fed_block(f).src == 0,
{
}

// ── What the parts come to ──────────────────────────────────────────────────

/// Two bytes are a signed number, the low byte first.
pub proof fn law_samples_are_low_byte_first(lo: u8, hi: u8)
    ensures
        -0x8000 <= sample(lo, hi) < 0x8000,
        (sample(lo, hi) - lo - 0x100 * hi) % 0x1_0000 == 0,
{
}

/// A recording is one sample for every two bytes, in order; the header of a
/// wave file, forty-four bytes, is no audio.
pub proof fn law_a_recording_is_its_bytes(bytes: Seq<u8>, k: int)
    requires
        0 <= k < bytes.len() / 2,
    ensures
        samples_of(bytes).len() == bytes.len() / 2,
        (samples_of(bytes)[k] - bytes[2 * k] - 0x100 * bytes[2 * k + 1]) % 0x1_0000 == 0,
        WAV_HEADER == 44,
{
    law_samples_are_low_byte_first(bytes[2 * k], bytes[2 * k + 1]);
}

/// The deliberate offset puts the recording off by its own length, a
/// millisecond for every twelve samples, whatever the clock.
pub proof fn law_the_offset_is_waited_out(now_us: int, utc_us: Option<u64>, slot: int, ms: int)
    requires
        slot >= 12,
        ms >= 0,
    ensures
        start_time(now_us, utc_us, slot, 12 * ms) == start_time(now_us, utc_us, slot, 0) + 1_000
            * ms,
        start_time(now_us, None, slot, 0) == now_us,
{
}

/// Samples are due at twelve to a millisecond, rounded down to the
/// microsecond.
pub proof fn law_samples_are_due_at_their_rate(f: FeedView)
    requires
        f.fed >= 0,
    ensures
        12 * (due_at(f) - f.t0) <= 1_000 * f.fed < 12 * (due_at(f) - f.t0 + 1),
{
}

/// The misalignment is how far the top of the pass, put off by the
/// deliberate offset, is from the clock's boundary, up to whole slots.
pub proof fn law_the_misalignment_is_to_the_boundary(f: FeedView, to_boundary: int)
    requires
        f.slot > 0,
    ensures
        (to_boundary + f.offset - misalignment(f, to_boundary)) % f.slot == 0,
{
    let x = to_boundary + f.offset;
    let to = x % f.slot;
    vstd::arithmetic::div_mod::lemma_fundamental_div_mod(x, f.slot);
    let q = x / f.slot;
    assert(x - to == q * f.slot) by (nonlinear_arith)
        requires
            x == f.slot * q + to,
    ;
    assert(x - (to - f.slot) == (q + 1) * f.slot) by (nonlinear_arith)
        requires
            x == f.slot * q + to,
    ;
    vstd::arithmetic::div_mod::lemma_mod_multiples_basic(q, f.slot);
    vstd::arithmetic::div_mod::lemma_mod_multiples_basic(q + 1, f.slot);
}

/// A block counts as it goes: as many samples as it has are due and handed
/// over, and a pass is marked where its first sample stands in the stream.
pub proof fn law_a_block_counts(f: FeedView)
    requires
        feed_ok(f),
        f.loop_len > 0,
    ensures
        ({
            let g = fed_block(f);
            let n = block_end(f) - f.src;
            &&& n > 0
            &&& g.fed == f.fed + n
            &&& (g.pushed - f.pushed - n) % 0x1_0000_0000 == 0
            &&& g.last == f.src
            &&& f.src < f.last || f.pushed == 0 ==> (g.pass_start + f.src - f.pushed)
                % 0x1_0000_0000 == 0
            &&& f.src >= f.last && f.pushed != 0 ==> g.pass_start == f.pass_start
        }),
{
    let m = 0x1_0000_0000int;
    let a = f.pushed - f.src;
    assert((a % m + f.src - f.pushed) % m == 0) by {
        vstd::arithmetic::div_mod::lemma_fundamental_div_mod(a, m);
        let q = a / m;
        assert(a % m + f.src - f.pushed == (-q) * m) by (nonlinear_arith)
            requires
                a == m * q + a % m,
                a == f.pushed - f.src,
        ;
        vstd::arithmetic::div_mod::lemma_mod_multiples_basic(-q, m);
    }
    let b = f.pushed + (block_end(f) - f.src);
    assert((b % m - b) % m == 0) by {
        vstd::arithmetic::div_mod::lemma_fundamental_div_mod(b, m);
        let q = b / m;
        assert(b % m - b == (-q) * m) by (nonlinear_arith)
            requires
                b == m * q + b % m,
        ;
        vstd::arithmetic::div_mod::lemma_mod_multiples_basic(-q, m);
    }
}

}
