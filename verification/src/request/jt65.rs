//! Requests for JT65.

use vstd::prelude::*;

verus! {

/// Symbols that the Reed-Solomon code can spend on erasures.
pub const MAX_ERASURES: usize = 51;

/// A decode of everything in a buffer.
#[derive(Debug)]
pub struct DecodeRequest<A, S, C> {
    pub audio: A,
    pub sample_rate: u32,
    pub nominal_start_sample: usize,
    pub params: S,
    pub chase: Option<C>,
}

impl<A, S, C> DecodeRequest<A, S, C> {
    /// The whole buffer, from sample 0, with hard decisions.
    pub fn new(audio: A, sample_rate: u32, default_params: S) -> (r: Self)
        ensures
            r == (Self {
                audio,
                sample_rate,
                nominal_start_sample: 0,
                params: default_params,
                chase: None,
            }),
    {
        DecodeRequest {
            audio,
            sample_rate,
            nominal_start_sample: 0,
            params: default_params,
            chase: None,
        }
    }

    /// A decode at a known place.
    pub fn sniper<F>(audio: A, sample_rate: u32, start_sample: usize, base_freq: F) -> (r:
        SniperRequest<A, F, C>)
        ensures
            r == (SniperRequest::<A, F, C> {
                audio,
                sample_rate,
                start_sample,
                base_freq,
                strategy: RsStrategy::Hard,
            }),
    {
        SniperRequest::new(audio, sample_rate, start_sample, base_freq)
    }

    /// The sample at which the slot starts.
    pub fn nominal_start(self, sample: usize) -> (r: Self)
        ensures
            r == (Self { nominal_start_sample: sample, ..self }),
    {
        DecodeRequest { nominal_start_sample: sample, ..self }
    }

    /// The search window.
    pub fn params(self, params: S) -> (r: Self)
        ensures
            r == (Self { params, ..self }),
    {
        DecodeRequest { params, ..self }
    }

    /// Decodes with the Chase search in place of hard decisions.
    pub fn chase(self, params: C) -> (r: Self)
        ensures
            r == (Self { chase: Some(params), ..self }),
    {
        DecodeRequest { chase: Some(params), ..self }
    }
}

/// How Reed-Solomon is run.
#[derive(Debug)]
pub enum RsStrategy<C> {
    Hard,
    /// Erases this many of the least sure symbols, each count in turn.
    Erasures(Vec<usize>),
    Chase(C),
}

/// A decode at a known place.
#[derive(Debug)]
pub struct SniperRequest<A, F, C> {
    pub audio: A,
    pub sample_rate: u32,
    pub start_sample: usize,
    pub base_freq: F,
    pub strategy: RsStrategy<C>,
}

/// A count of erasures that the code can take.
pub open spec fn clamped(count: usize) -> usize {
    if count > MAX_ERASURES {
        MAX_ERASURES
    } else {
        count
    }
}

impl<A, F, C> SniperRequest<A, F, C> {
    pub fn new(audio: A, sample_rate: u32, start_sample: usize, base_freq: F) -> (r: Self)
        ensures
            r == (Self {
                audio,
                sample_rate,
                start_sample,
                base_freq,
                strategy: RsStrategy::Hard,
            }),
    {
        SniperRequest { audio, sample_rate, start_sample, base_freq, strategy: RsStrategy::Hard }
    }

    /// Tries these counts of erasures in turn, each clamped to what the code
    /// can take; forgets any strategy that was set before.
    pub fn erasures(self, attempts: &[usize]) -> (r: Self)
        ensures
            r == (Self { strategy: r.strategy, ..self }),
            r.strategy is Erasures,
            r.strategy->Erasures_0@ == attempts@.map_values(|a: usize| clamped(a)),
    {
        let mut counts: Vec<usize> = Vec::new();
        let mut k: usize = 0;
        while k < attempts.len()
            invariant
                k <= attempts@.len(),
                counts@ == attempts@.take(k as int).map_values(|a: usize| clamped(a)),
            decreases attempts@.len() - k,
        {
            let a: usize = attempts[k];
            counts.push(
                if a > MAX_ERASURES {
                    MAX_ERASURES
                } else {
                    a
                },
            );
            k += 1;
            assert(counts@ =~= attempts@.take(k as int).map_values(|a: usize| clamped(a)));
        }
        assert(attempts@.take(k as int) =~= attempts@);
        SniperRequest { strategy: RsStrategy::Erasures(counts), ..self }
    }

    /// Runs the Chase search; forgets any strategy that was set before.
    pub fn chase(self, params: C) -> (r: Self)
        ensures
            r == (Self { strategy: RsStrategy::Chase(params), ..self }),
    {
        SniperRequest { strategy: RsStrategy::Chase(params), ..self }
    }
}

/// A count of erasures is kept as it was asked for up to what the code can
/// take, 51, and is never more.
pub proof fn law_erasures_are_bounded(count: usize)
    ensures
        clamped(count) <= 51,
        count <= 51 ==> clamped(count) == count,
        count >= 51 ==> clamped(count) == 51,
{
}

}
