//! Requests for JT9.

use vstd::prelude::*;

verus! {

/// A decode of everything in a buffer.
#[derive(Debug)]
pub struct DecodeRequest<A, S, D> {
    pub audio: A,
    pub sample_rate: u32,
    pub nominal_start_sample: usize,
    pub params: S,
    pub depth: D,
}

impl<A, S, D> DecodeRequest<A, S, D> {
    /// The whole buffer, from sample 0.
    pub fn new(audio: A, sample_rate: u32, default_params: S, default_depth: D) -> (r: Self)
        ensures
            r == (Self {
                audio,
                sample_rate,
                nominal_start_sample: 0,
                params: default_params,
                depth: default_depth,
            }),
    {
        DecodeRequest {
            audio,
            sample_rate,
            nominal_start_sample: 0,
            params: default_params,
            depth: default_depth,
        }
    }

    /// A decode at a known place.
    pub fn sniper<F>(audio: A, sample_rate: u32, start_sample: usize, base_freq: F) -> (r:
        SniperRequest<A, F>)
        ensures
            r == (SniperRequest::<A, F> { audio, sample_rate, start_sample, base_freq }),
    {
        SniperRequest::new(audio, sample_rate, start_sample, base_freq)
    }

    /// The sample at which the slot starts.
    pub fn nominal_start(self, sample: usize) -> (r: Self)
        ensures
            r == (Self { nominal_start_sample: sample, ..self }),
    {
        DecodeRequest { nominal_start_sample: sample, ..self }
    }

    /// The search window.
    pub fn params(self, params: S) -> (r: Self)
        ensures
            r == (Self { params, ..self }),
    {
        DecodeRequest { params, ..self }
    }

    /// How long the decoder may try.
    pub fn depth(self, depth: D) -> (r: Self)
        ensures
            r == (Self { depth, ..self }),
    {
        DecodeRequest { depth, ..self }
    }
}

/// A decode at a known place.
#[derive(Debug)]
pub struct SniperRequest<A, F> {
    pub audio: A,
    pub sample_rate: u32,
    pub start_sample: usize,
    pub base_freq: F,
}

impl<A, F> SniperRequest<A, F> {
    pub fn new(audio: A, sample_rate: u32, start_sample: usize, base_freq: F) -> (r: Self)
        ensures
            r == (Self { audio, sample_rate, start_sample, base_freq }),
    {
        SniperRequest { audio, sample_rate, start_sample, base_freq }
    }
}

}
