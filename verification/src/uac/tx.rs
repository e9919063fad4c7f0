//! The way out: playing samples to the radio, and the probe that finds out
//! whether it takes them.

use crate::msg::pack::packed;
use crate::msg::pack::pack77;
use crate::text::{dec, hex, signed_dec};
use crate::text::{add_dec, add_signed, hex_of, string_of};
use crate::uac::slot_grid::toward_zero;
use vstd::prelude::*;

verus! {

/// Silent writes of the probe.
pub const TX_PROBE_WRITES: u32 = 20;

/// Samples at 12 kHz in one chunk of a frame: 20 ms.
pub const TX_CHUNK_12K: usize = 240;

/// Channels of the radio's own format.
pub const STREAM_CHANNELS: u8 = 2;

// ── Samples ─────────────────────────────────────────────────────────────────

/// The bytes of a sample, low byte first.
pub open spec fn sample_byte(v: i16, high: bool) -> u8 {
    let u = v as int % 0x1_0000;
    if high {
        (u / 256) as u8
    } else {
        (u % 256) as u8
    }
}

/// Bytes that one sample becomes: held for four samples of 48 kHz, on one
/// channel or two.
pub open spec fn held_bytes(channels: u8) -> int {
    if channels == 2 {
        16
    } else {
        8
    }
}

/// A block at 12 kHz as bytes at 48 kHz.
pub open spec fn held(mono: Seq<i16>, channels: u8) -> Seq<u8>
    decreases mono.len(),
{
    if mono.len() == 0 {
        Seq::empty()
    } else {
        held(mono.drop_last(), channels) + Seq::new(
            held_bytes(channels) as nat,
            |k: int| sample_byte(mono.last(), k % 2 == 1),
        )
    }
}

/// Each sample held for four, the same on both channels where there are two.
pub fn hold4(mono: &[i16], channels: u8) -> (r: Vec<u8>)
    ensures
        r@ == held(mono@, channels),
{
    let mut out: Vec<u8> = Vec::new();
    let mut i: usize = 0;
    assert(mono@.take(0) =~= Seq::<i16>::empty());
    while i < mono.len()
        invariant
            i <= mono.len(),
            out@ == held(mono@.take(i as int), channels),
        decreases mono.len() - i,
    {
        let v: i16 = mono[i];
        let u: u32 = if v >= 0 {
            v as u32
        } else {
            (v as i32 + 0x1_0000) as u32
        };
        let lo: u8 = (u % 256) as u8;
        let hi: u8 = (u / 256) as u8;
        let ghost before = out@;
        let mut k: usize = 0;
        let pairs: usize = if channels == 2 {
            8
        } else {
            4
        };
        while k < pairs
            invariant
                k <= pairs,
                pairs * 2 == held_bytes(channels),
                lo == sample_byte(v, false),
                hi == sample_byte(v, true),
                out@ == before + Seq::new((2 * k) as nat, |j: int| sample_byte(v, j % 2 == 1)),
            decreases pairs - k,
        {
            let ghost part = out@;
            out.push(lo);
            out.push(hi);
            k += 1;
            assert(out@ =~= before + Seq::new(
                (2 * k) as nat,
                |j: int| sample_byte(v, j % 2 == 1),
            ));
        }
        proof {
            assert(mono@.take(i + 1).drop_last() =~= mono@.take(i as int));
            assert(mono@.take(i + 1).last() == v);
            assert(out@ =~= held(mono@.take(i + 1), channels));
        }
        i += 1;
    }
    assert(mono@.take(mono@.len() as int) =~= mono@);
    out
}

/// A block becomes four times its samples per channel, two bytes each.
pub proof fn law_held_length(mono: Seq<i16>, channels: u8)
    ensures
        held(mono, channels).len() == mono.len() * held_bytes(channels),
    decreases mono.len(),
{
    if mono.len() > 0 {
        law_held_length(mono.drop_last(), channels);
        let b = held_bytes(channels);
        let n = mono.len() as int;
        assert((n - 1) * b + b == n * b) by (nonlinear_arith);
    }
}

/// Silence stays silence: no byte of it can be heard.
pub proof fn law_silence_stays_silent(mono: Seq<i16>, channels: u8)
    requires
        forall|i: int| 0 <= i < mono.len() ==> #[trigger] mono[i] == 0,
    ensures
        forall|i: int| 0 <= i < held(mono, channels).len() ==> #[trigger] held(mono, channels)[i]
            == 0,
    decreases mono.len(),
{
    if mono.len() > 0 {
        let t = mono.drop_last();
        assert forall|i: int| 0 <= i < t.len() implies #[trigger] t[i] == 0 by {
            assert(mono[i] == 0);
        }
        law_silence_stays_silent(t, channels);
        assert(mono[mono.len() - 1] == 0);
        let h = held(t, channels);
        let all = held(mono, channels);
        assert(sample_byte(0, true) == 0 && sample_byte(0, false) == 0);
        assert forall|i: int| 0 <= i < all.len() implies #[trigger] all[i] == 0 by {
            if i < h.len() {
                assert(all[i] == h[i]);
            } else {
                assert(all[i] == sample_byte(mono.last(), (i - h.len()) % 2 == 1));
            }
        }
    }
}

// ── A frame ─────────────────────────────────────────────────────────────────

/// How far a frame has got.
#[derive(Debug, Clone, Copy, PartialEq, Eq, Structural)]
pub struct Frame {
    pub chunks: u32,
    /// The longest a chunk took.
    pub worst_us: i64,
}

/// Whether a frame goes on.
#[derive(Debug, Clone, Copy, PartialEq, Eq, Structural)]
pub enum FrameStep {
    /// Write this many samples.
    Write { samples: usize },
    /// All sent.
    Complete,
    /// Nothing came though there should be more.
    Stalled,
}

impl Frame {
    pub fn new() -> (r: Self)
        ensures
            r == (Frame { chunks: 0, worst_us: 0 }),
    {
        Frame { chunks: 0, worst_us: 0 }
    }

    /// A chunk of `made` samples came out of a waveform that had `remaining`
    /// left.
    pub fn made(&self, remaining: usize, made: usize) -> (r: FrameStep)
        ensures
            r == if remaining == 0 {
                FrameStep::Complete
            } else if made == 0 {
                FrameStep::Stalled
            } else {
                FrameStep::Write { samples: made }
            },
    {
        if remaining == 0 {
            FrameStep::Complete
        } else if made == 0 {
            FrameStep::Stalled
        } else {
            FrameStep::Write { samples: made }
        }
    }

    /// A chunk was written, or not; says whether to go on.
    pub fn wrote(&mut self, ok: bool, took_us: i64) -> (r: bool)
        requires
            old(self).chunks < u32::MAX,
        ensures
            r == ok,
            *final(self) == if ok {
                Frame {
                    chunks: (old(self).chunks + 1) as u32,
                    worst_us: if took_us > old(self).worst_us {
                        took_us
                    } else {
                        old(self).worst_us
                    },
                }
            } else {
                *old(self)
            },
    {
        if !ok {
            return false;
        }
        self.chunks = self.chunks + 1;
        if took_us > self.worst_us {
            self.worst_us = took_us;
        }
        true
    }
}

// ── The probe ───────────────────────────────────────────────────────────────

/// A format to try: channels, bits, rate.
#[derive(Debug, Clone, Copy, PartialEq, Eq, Structural)]
pub struct TxConfig {
    pub channels: u8,
    pub bits: u8,
    pub sample_freq: u32,
}

pub const N_TX_CONFIGS: u32 = 4;

/// The formats, in the order they are tried: stereo and mono at 48 kHz, then
/// at 24 kHz.
pub open spec fn config_at(idx: int) -> TxConfig {
    TxConfig {
        channels: if idx % 2 == 0 {
            2
        } else {
            1
        },
        bits: 16,
        sample_freq: if idx < 2 {
            48_000
        } else {
            24_000
        },
    }
}

pub fn tx_config(idx: u32) -> (r: TxConfig)
    requires
        idx < N_TX_CONFIGS,
    ensures
        r == config_at(idx as int),
{
    TxConfig {
        channels: if idx % 2 == 0 {
            2
        } else {
            1
        },
        bits: 16,
        sample_freq: if idx < 2 {
            48_000
        } else {
            24_000
        },
    }
}

/// The success code.
pub const ESP_OK: i32 = 0;

/// How far the probe got, kept for later reading.
#[derive(Debug, Clone, Copy, PartialEq, Eq, Structural)]
pub struct TxProbe {
    /// 0 never entered, 1 entered, 2 opened, 3 started, 4 silent writes
    /// done, 5 frame done, 6 closed.
    pub stage: u32,
    /// The format that was accepted, or -1.
    pub cfg_idx: i32,
    /// The last result of starting; `i32::MIN` before.
    pub start_err: i32,
    pub silent_ok: u32,
    pub frame_chunks: u32,
    /// -1 before a frame.
    pub frame_ms: i32,
}

/// What the probe does next.
#[derive(Debug, Clone, Copy, PartialEq, Eq, Structural)]
pub enum TxAction {
    Open,
    /// Start with the format of this index.
    Start { idx: u32 },
    /// Write silence; `done` writes are behind.
    WriteSilence { done: u32, ok: u32 },
    /// Send a frame on so many channels.
    SendFrame { channels: u8 },
    /// Close without stopping: it never started.
    Close,
    StopAndClose,
    Done,
}

impl TxProbe {
    pub fn new() -> (r: Self)
        ensures
            r == (TxProbe {
                stage: 0,
                cfg_idx: (-1) as i32,
                start_err: i32::MIN,
                silent_ok: 0,
                frame_chunks: 0,
                frame_ms: (-1) as i32,
            }),
    {
        TxProbe {
            stage: 0,
            cfg_idx: -1,
            start_err: i32::MIN,
            silent_ok: 0,
            frame_chunks: 0,
            frame_ms: -1,
        }
    }

    /// The interface appeared.
    pub fn enter(&mut self) -> (r: TxAction)
        ensures
            r == TxAction::Open,
            *final(self) == (TxProbe { stage: 1, ..*old(self) }),
    {
        self.stage = 1;
        TxAction::Open
    }

    /// The interface was opened, or not.
    pub fn opened(&mut self, err: i32) -> (r: TxAction)
        ensures
            err == ESP_OK ==> r == (TxAction::Start { idx: 0 }) && *final(self) == (TxProbe {
                stage: 2,
                ..*old(self)
            }),
            err != ESP_OK ==> r == TxAction::Done && *final(self) == *old(self),
    {
        if err != ESP_OK {
            return TxAction::Done;
        }
        self.stage = 2;
        TxAction::Start { idx: 0 }
    }

    /// Starting with the format of `idx` gave `err`: the first format that
    /// is taken is used, and when none is the interface is closed.
    pub fn started(&mut self, idx: u32, err: i32) -> (r: TxAction)
        requires
            idx < N_TX_CONFIGS,
        ensures
            r == if err == ESP_OK {
                TxAction::WriteSilence { done: 0, ok: 0 }
            } else if idx + 1 < N_TX_CONFIGS {
                TxAction::Start { idx: (idx + 1) as u32 }
            } else {
                TxAction::Close
            },
            *final(self) == if err == ESP_OK {
                TxProbe { cfg_idx: idx as i32, start_err: err, stage: 3, ..*old(self) }
            } else if idx + 1 < N_TX_CONFIGS {
                *old(self)
            } else {
                TxProbe { cfg_idx: (-1) as i32, start_err: err, ..*old(self) }
            },
    {
        if err == ESP_OK {
            self.cfg_idx = idx as i32;
            self.start_err = err;
            self.stage = 3;
            return TxAction::WriteSilence { done: 0, ok: 0 };
        }
        if idx + 1 < N_TX_CONFIGS {
            return TxAction::Start { idx: idx + 1 };
        }
        self.cfg_idx = -1;
        self.start_err = err;
        TxAction::Close
    }

    /// A silent write was made after `done` others, `ok` of them good. When
    /// all are made and any was good, a frame is sent in the format that was
    /// accepted.
    pub fn wrote(&mut self, done: u32, ok: u32, err: i32) -> (r: TxAction)
        requires
            ok <= done < TX_PROBE_WRITES,
            old(self).cfg_idx < N_TX_CONFIGS,
        ensures
            ({
                let good = ok + if err == ESP_OK {
                    1int
                } else {
                    0int
                };
                if done + 1 < TX_PROBE_WRITES {
                    r == (TxAction::WriteSilence { done: (done + 1) as u32, ok: good as u32 })
                        && *final(self) == *old(self)
                } else {
                    *final(self) == (TxProbe { silent_ok: good as u32, stage: 4, ..*old(self) })
                        && r == if good > 0 {
                        TxAction::SendFrame {
                            channels: if old(self).cfg_idx >= 0 {
                                config_at(old(self).cfg_idx as int).channels
                            } else {
                                STREAM_CHANNELS
                            },
                        }
                    } else {
                        TxAction::StopAndClose
                    }
                }
            }),
    {
        let good: u32 = if err == ESP_OK {
            ok + 1
        } else {
            ok
        };
        if done + 1 < TX_PROBE_WRITES {
            return TxAction::WriteSilence { done: done + 1, ok: good };
        }
        self.silent_ok = good;
        self.stage = 4;
        if good > 0 {
            let channels: u8 = if self.cfg_idx >= 0 {
                tx_config(self.cfg_idx as u32).channels
            } else {
                STREAM_CHANNELS
            };
            TxAction::SendFrame { channels }
        } else {
            TxAction::StopAndClose
        }
    }

    /// A frame was sent, as far as it got, in `total_us`.
    pub fn framed(&mut self, chunks: u32, total_us: i64) -> (r: TxAction)
        requires
            -2_147_483_648_000 <= total_us <= 2_147_483_647_000,
        ensures
            r == TxAction::StopAndClose,
            *final(self) == (TxProbe {
                frame_chunks: chunks,
                frame_ms: toward_zero(total_us as int, 1000) as i32,
                stage: 5,
                ..*old(self)
            }),
    {
        self.frame_chunks = chunks;
        let ms: i64 = if total_us >= 0 {
            (total_us as u64 / 1000) as i64
        } else {
            -(((-total_us) as u64 / 1000) as i64)
        };
        self.frame_ms = ms as i32;
        self.stage = 5;
        TxAction::StopAndClose
    }

    /// The interface was closed.
    pub fn closed(&mut self) -> (r: TxAction)
        ensures
            r == TxAction::Done,
            *final(self) == (TxProbe { stage: 6, ..*old(self) }),
    {
        self.stage = 6;
        TxAction::Done
    }

    /// The probe in a few words.
    pub fn summary(&self) -> (r: String)
        ensures
            r@ == probe_text(*self),
    {
        if self.stage == 0 {
            return "never entered".to_owned();
        }
        if self.stage == 1 {
            return "open !ok".to_owned();
        }
        if self.start_err == i32::MIN {
            return "open ok, start pending".to_owned();
        }
        if self.start_err != ESP_OK {
            let u: u32 = if self.start_err >= 0 {
                self.start_err as u32
            } else {
                (self.start_err as i64 + 0x1_0000_0000) as u32
            };
            let h = string_of(hex_of(u).as_slice());
            let mut s = "start err 0x".to_owned();
            s.append(h.as_str());
            return s;
        }
        let mut s = "cfg".to_owned();
        add_signed(&mut s, self.cfg_idx as i64);
        s.append(" st");
        add_dec(&mut s, self.stage as u64);
        s.append(" sil ");
        add_dec(&mut s, self.silent_ok as u64);
        s.append("/");
        add_dec(&mut s, TX_PROBE_WRITES as u64);
        s.append(" frame ");
        add_dec(&mut s, self.frame_chunks as u64);
        s.append("ch ");
        add_signed(&mut s, self.frame_ms as i64);
        s.append("ms");
        s
    }
}

/// The probe in a few words.
pub open spec fn probe_text(p: TxProbe) -> Seq<char> {
    if p.stage == 0 {
        "never entered"@
    } else if p.stage == 1 {
        "open !ok"@
    } else if p.start_err == i32::MIN {
        "open ok, start pending"@
    } else if p.start_err != ESP_OK {
        "start err 0x"@ + hex((p.start_err as int % 0x1_0000_0000) as nat)
    } else {
        "cfg"@ + signed_dec(p.cfg_idx as int) + " st"@ + dec(p.stage as nat) + " sil "@ + dec(
            p.silent_ok as nat,
        ) + "/"@ + dec(TX_PROBE_WRITES as nat) + " frame "@ + dec(p.frame_chunks as nat) + "ch "@
            + signed_dec(p.frame_ms as int) + "ms"@
    }
}

/// The message of the probe's frame: a CQ, or nothing at all if it does not
/// pack.
pub fn probe_message(my_call: &str, my_grid: &str) -> (r: [u8; 77])
    ensures
        match packed("CQ"@, my_call@, my_grid@) {
            Some(bits) => r@ == bits,
            None => r@ == Seq::new(77, |i: int| 0u8),
        },
{
    match pack77("CQ", my_call, my_grid) {
        Some(m) => m,
        None => {
            let z: [u8; 77] = [0; 77];
            assert(z@ =~= Seq::new(77, |i: int| 0u8));
            z
        },
    }
}

// ── What goes out ───────────────────────────────────────────────────────────

/// Every sample goes out four times on each channel, two bytes each with the
/// low one first, before the next one does.
pub proof fn law_each_sample_is_held(mono: Seq<i16>, channels: u8, i: int, k: int)
    requires
        0 <= i < mono.len(),
        0 <= k,
        2 * k + 1 < held_bytes(channels),
    ensures
        held_bytes(channels) == 2 * 4 * (if channels == 2 {
            2int
        } else {
            1
        }),
        ({
            let at = i * held_bytes(channels) + 2 * k;
            &&& 0 <= at && at + 1 < held(mono, channels).len()
            &&& (held(mono, channels)[at] + 0x100 * held(mono, channels)[at + 1] - mono[i])
                % 0x1_0000 == 0
        }),
    decreases mono.len(),
{
    let b = held_bytes(channels);
    let t = mono.drop_last();
    let h = held(t, channels);
    let all = held(mono, channels);
    law_held_length(t, channels);
    law_held_length(mono, channels);
    let n = mono.len() as int;
    let at = i * b + 2 * k;
    assert(0 <= i * b && i * b + b <= n * b) by (nonlinear_arith)
        requires
            0 <= i < n,
            b > 0,
    ;
    if i < n - 1 {
        law_each_sample_is_held(t, channels, i, k);
        assert(i * b + b <= (n - 1) * b) by (nonlinear_arith)
            requires
                i + 1 <= n - 1,
                b > 0,
        ;
        assert(all[at] == h[at] && all[at + 1] == h[at + 1]);
        assert(t[i] == mono[i]);
    } else {
        assert(h.len() == i * b);
        let v = mono.last();
        assert(all[at] == sample_byte(v, (2 * k) % 2 == 1));
        assert(all[at + 1] == sample_byte(v, (2 * k + 1) % 2 == 1));
        let u = v as int % 0x1_0000;
        assert(u / 256 < 256 && u == 256 * (u / 256) + u % 256);
    }
}

/// The formats differ from each other: both numbers of channels are tried at
/// the higher rate before the lower one, stereo first, always in 16 bits.
pub proof fn law_formats_are_tried_from_the_best(i: int, j: int)
    requires
        0 <= i < j < 4,
    ensures
        config_at(i) != config_at(j),
        config_at(i).sample_freq >= config_at(j).sample_freq,
        config_at(i).sample_freq == config_at(j).sample_freq ==> config_at(i).channels == 2
            && config_at(j).channels == 1,
        config_at(i).bits == 16 && config_at(j).bits == 16,
        config_at(0).sample_freq == 48_000,
        config_at(3).sample_freq == 24_000,
{
}

/// The summary tells how far the probe got: not begun, not opened, opened
/// and waiting, refused with a code, or what went out.
pub proof fn law_the_probe_tells_how_far_it_got(p: TxProbe)
    ensures
        p.stage == 0 ==> probe_text(p) == "never entered"@,
        p.stage == 1 ==> probe_text(p) == "open !ok"@,
        p.stage >= 2 && p.start_err == -0x8000_0000 ==> probe_text(p) == "open ok, start pending"@,
        p.stage >= 2 && p.start_err > 0 ==> probe_text(p) == "start err 0x"@ + hex(
            p.start_err as nat,
        ),
        p.stage >= 2 && -0x8000_0000 < p.start_err < 0 ==> probe_text(p) == "start err 0x"@ + hex(
            (0x1_0000_0000 + p.start_err) as nat,
        ),
        p.stage >= 2 && p.start_err == 0 ==> probe_text(p) == "cfg"@ + signed_dec(
            p.cfg_idx as int,
        ) + " st"@ + dec(p.stage as nat) + " sil "@ + dec(p.silent_ok as nat) + "/"@ + dec(20)
            + " frame "@ + dec(p.frame_chunks as nat) + "ch "@ + signed_dec(p.frame_ms as int)
            + "ms"@,
{
}

}
