//! How a tone sequence becomes audio, up to the samples themselves: lengths,
//! configurations and what may be sent.

use vstd::prelude::*;

verus! {

/// A configuration of Gaussian-shaped FSK.
#[derive(Debug, Clone, Copy, PartialEq, Eq, Structural)]
pub struct GfskCfg {
    pub sample_rate: u32,
    pub samples_per_symbol: usize,
    /// Bandwidth-time product, in tenths.
    pub bt_tenths: u32,
    /// Modulation index, in tenths.
    pub hmod_tenths: u32,
    /// Samples of the ramp at either end.
    pub ramp_samples: usize,
}

/// How a protocol's tones become audio.
#[derive(Debug, Clone, Copy, PartialEq, Eq, Structural)]
pub enum Waveform {
    /// Gaussian-shaped FSK, defined at its own sample rate.
    Gfsk(GfskCfg),
    /// Plain continuous-phase FSK.
    Cpfsk,
}

/// What a waveform needs to know of its protocol.
#[derive(Debug, Clone, Copy, PartialEq, Eq, Structural)]
pub struct Shape {
    pub n_symbols: u32,
    pub n_tones: u32,
    pub waveform: Waveform,
}

/// A protocol that can be turned into audio.
pub trait FskWaveform: Sized {
    fn shape() -> Shape;
}

/// A shape that a protocol gives.
pub open spec fn shaped<P: FskWaveform>(s: Shape) -> bool {
    call_ensures(P::shape, (), s)
}

/// A configuration of 12 kHz with a ramp of an eighth of a symbol.
pub open spec fn at_12k(samples_per_symbol: usize, bt_tenths: u32) -> GfskCfg {
    GfskCfg {
        sample_rate: 12_000,
        samples_per_symbol,
        bt_tenths,
        hmod_tenths: 10,
        ramp_samples: samples_per_symbol / 8,
    }
}

fn config_12k(samples_per_symbol: usize, bt_tenths: u32) -> (r: GfskCfg)
    ensures
        r == at_12k(samples_per_symbol, bt_tenths),
{
    GfskCfg {
        sample_rate: 12_000,
        samples_per_symbol,
        bt_tenths,
        hmod_tenths: 10,
        ramp_samples: samples_per_symbol / 8,
    }
}

/// FT8: 1920 samples a symbol.
pub fn ft8_gfsk() -> (r: GfskCfg)
    ensures
        r == at_12k(1920, 20),
{
    config_12k(1920, 20)
}

/// FT4: 576 samples a symbol, and a narrower pulse.
pub fn ft4_gfsk() -> (r: GfskCfg)
    ensures
        r == at_12k(576, 10),
{
    config_12k(576, 10)
}

pub fn fst4_15_gfsk() -> (r: GfskCfg)
    ensures
        r == at_12k(720, 20),
{
    config_12k(720, 20)
}

pub fn fst4_30_gfsk() -> (r: GfskCfg)
    ensures
        r == at_12k(1_680, 20),
{
    config_12k(1_680, 20)
}

pub fn fst4_60a_gfsk() -> (r: GfskCfg)
    ensures
        r == at_12k(3_888, 20),
{
    config_12k(3_888, 20)
}

pub fn fst4_120_gfsk() -> (r: GfskCfg)
    ensures
        r == at_12k(8_200, 20),
{
    config_12k(8_200, 20)
}

pub fn fst4_300_gfsk() -> (r: GfskCfg)
    ensures
        r == at_12k(21_504, 20),
{
    config_12k(21_504, 20)
}

/// FT8: 79 symbols of eight tones.
#[derive(Debug, Clone, Copy)]
pub struct Ft8;

impl FskWaveform for Ft8 {
    fn shape() -> (r: Shape)
        ensures
            r == (Shape {
                n_symbols: 79,
                n_tones: 8,
                waveform: Waveform::Gfsk(at_12k(1920, 20)),
            }),
    {
        Shape { n_symbols: 79, n_tones: 8, waveform: Waveform::Gfsk(ft8_gfsk()) }
    }
}

/// WSPR: 162 symbols of four tones, with no pulse shaping.
#[derive(Debug, Clone, Copy)]
pub struct Wspr;

impl FskWaveform for Wspr {
    fn shape() -> (r: Shape)
        ensures
            r == (Shape { n_symbols: 162, n_tones: 4, waveform: Waveform::Cpfsk }),
    {
        Shape { n_symbols: 162, n_tones: 4, waveform: Waveform::Cpfsk }
    }
}

/// A configuration at a sample rate with `nsps` samples a symbol: unchanged
/// at its own rate, and else with the ramp's share of a symbol kept.
pub open spec fn scaled(cfg: GfskCfg, sample_rate: u32, nsps: usize) -> GfskCfg {
    if sample_rate == cfg.sample_rate {
        cfg
    } else {
        GfskCfg {
            sample_rate,
            samples_per_symbol: nsps,
            ramp_samples: (cfg.ramp_samples * nsps / cfg.samples_per_symbol as int) as usize,
            ..cfg
        }
    }
}

pub fn gfsk_at(cfg: &GfskCfg, sample_rate: u32, nsps: usize) -> (r: GfskCfg)
    requires
        cfg.samples_per_symbol > 0,
        cfg.ramp_samples * nsps <= usize::MAX,
    ensures
        r == scaled(*cfg, sample_rate, nsps),
{
    if sample_rate == cfg.sample_rate {
        return *cfg;
    }
    GfskCfg {
        sample_rate,
        samples_per_symbol: nsps,
        bt_tenths: cfg.bt_tenths,
        hmod_tenths: cfg.hmod_tenths,
        ramp_samples: cfg.ramp_samples * nsps / cfg.samples_per_symbol,
    }
}

/// Samples a symbol at a sample rate, where the symbol's duration gives
/// `nsps`.
pub open spec fn symbol_samples(w: Waveform, sample_rate: u32, nsps: usize) -> usize {
    match w {
        Waveform::Gfsk(cfg) => scaled(cfg, sample_rate, nsps).samples_per_symbol,
        Waveform::Cpfsk => nsps,
    }
}

fn samples_per_symbol(w: Waveform, sample_rate: u32, nsps: usize) -> (r: usize)
    ensures
        r == symbol_samples(w, sample_rate, nsps),
{
    match w {
        Waveform::Gfsk(cfg) => {
            if sample_rate == cfg.sample_rate {
                cfg.samples_per_symbol
            } else {
                nsps
            }
        },
        Waveform::Cpfsk => nsps,
    }
}

/// Samples of one frame at a sample rate, where the symbol's duration gives
/// `nsps` samples: what to size a buffer to.
pub fn synth_len<P: FskWaveform>(sample_rate: u32, nsps: usize) -> (r: usize)
    requires
        call_requires(P::shape, ()),
        forall|s: Shape| #[trigger]
            shaped::<P>(s) ==> frame_samples(s, sample_rate, nsps) <= usize::MAX,
    ensures
        exists|s: Shape| #[trigger]
            shaped::<P>(s) && r == frame_samples(s, sample_rate, nsps),
{
    let s = P::shape();
    assert(shaped::<P>(s));
    s.n_symbols as usize * samples_per_symbol(s.waveform, sample_rate, nsps)
}

/// Samples of a frame.
pub open spec fn frame_samples(s: Shape, sample_rate: u32, nsps: usize) -> int {
    s.n_symbols * symbol_samples(s.waveform, sample_rate, nsps)
}

/// The tones are one per symbol and all in range.
pub open spec fn tones_ok(shape: Shape, tones: Seq<u8>) -> bool {
    tones.len() == shape.n_symbols && forall|i: int|
        0 <= i < tones.len() ==> #[trigger] tones[i] < shape.n_tones
}

/// Whether these tones can be sent.
pub fn check_tones<P: FskWaveform>(tones: &[u8]) -> (r: bool)
    requires
        call_requires(P::shape, ()),
    ensures
        exists|s: Shape| #[trigger] shaped::<P>(s) && r == tones_ok(s, tones@),
{
    let s = P::shape();
    assert(shaped::<P>(s));
    if tones.len() != s.n_symbols as usize {
        return false;
    }
    let mut i: usize = 0;
    while i < tones.len()
        invariant
            i <= tones@.len(),
            tones@.len() == s.n_symbols,
            shaped::<P>(s),
            forall|k: int| 0 <= k < i ==> #[trigger] tones@[k] < s.n_tones,
        decreases tones@.len() - i,
    {
        if tones[i] as u32 >= s.n_tones {
            assert(!tones_ok(s, tones@));
            return false;
        }
        i += 1;
    }
    assert(tones_ok(s, tones@));
    true
}

/// With `k` times the samples a symbol the ramp is `k` times as long, and
/// the pulse stays the same.
pub proof fn law_scaling_keeps_the_ramp(cfg: GfskCfg, k: int, sample_rate: u32, nsps: usize)
    requires
        cfg.samples_per_symbol > 0,
        k > 0,
        sample_rate != cfg.sample_rate,
        nsps == k * cfg.samples_per_symbol,
        k * cfg.ramp_samples <= usize::MAX,
    ensures
        scaled(cfg, sample_rate, nsps).ramp_samples == k * cfg.ramp_samples,
        scaled(cfg, sample_rate, nsps).bt_tenths == cfg.bt_tenths,
        scaled(cfg, sample_rate, nsps).hmod_tenths == cfg.hmod_tenths,
{
    let s = cfg.samples_per_symbol as int;
    let r = cfg.ramp_samples as int;
    assert(r * (k * s) == (k * r) * s) by (nonlinear_arith);
    vstd::arithmetic::div_mod::lemma_div_by_multiple(k * r, s);
}

/// At the rate that a configuration is made for nothing changes; a ramp is
/// an eighth of a symbol, and the phase turns once a symbol for each tone.
pub proof fn law_a_configuration_is_its_own(samples: usize, bt_tenths: u32, nsps: usize)
    ensures
        ({
            let c = at_12k(samples, bt_tenths);
            &&& scaled(c, 12_000, nsps) == c
            &&& c.samples_per_symbol == samples && c.bt_tenths == bt_tenths
            &&& 8 * c.ramp_samples <= samples < 8 * c.ramp_samples + 8
            &&& c.hmod_tenths == 10
            &&& symbol_samples(Waveform::Gfsk(c), 12_000, nsps) == samples
        }),
{
}

/// A frame is as long as its symbols together, each as long as its duration
/// at another rate than the configuration's.
pub proof fn law_a_frame_is_its_symbols(s: Shape, sample_rate: u32, nsps: usize)
    requires
        s.waveform matches Waveform::Gfsk(c) ==> c.sample_rate != sample_rate,
    ensures
        symbol_samples(s.waveform, sample_rate, nsps) == nsps,
        frame_samples(s, sample_rate, nsps) == s.n_symbols * nsps,
        s.waveform matches Waveform::Gfsk(c) ==> scaled(c, sample_rate, nsps).sample_rate
            == sample_rate,
{
}

}
