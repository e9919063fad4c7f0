//! Requests for WSPR.

use vstd::prelude::*;

verus! {

/// A decode of everything in a buffer. The table of stations, when there is
/// one, outlives the slot: the decode reads it and adds to it.
#[derive(Debug)]
pub struct DecodeRequest<A, S, T> {
    pub audio: A,
    pub sample_rate: u32,
    pub nominal_start_sample: usize,
    pub params: S,
    pub table: Option<T>,
}

impl<A, S, T> DecodeRequest<A, S, T> {
    /// The whole buffer, from sample 0, with no table.
    pub fn new(audio: A, sample_rate: u32, default_params: S) -> (r: Self)
        ensures
            r == (Self {
                audio,
                sample_rate,
                nominal_start_sample: 0,
                params: default_params,
                table: None,
            }),
    {
        DecodeRequest {
            audio,
            sample_rate,
            nominal_start_sample: 0,
            params: default_params,
            table: None,
        }
    }

    /// A decode at a known place, from audio.
    pub fn sniper<F>(audio: A, sample_rate: u32, start_sample: usize, freq: F) -> (r:
        SniperRequest<A, F, T>)
        ensures
            r.source == Source::Audio(audio),
            r.at_first(sample_rate, start_sample, freq),
    {
        SniperRequest::new(audio, sample_rate, start_sample, freq)
    }

    /// The sample at which the slot starts.
    pub fn nominal_start(self, sample: usize) -> (r: Self)
        ensures
            r == (Self { nominal_start_sample: sample, ..self }),
    {
        DecodeRequest { nominal_start_sample: sample, ..self }
    }

    /// The search window.
    pub fn params(self, params: S) -> (r: Self)
        ensures
            r == (Self { params, ..self }),
    {
        DecodeRequest { params, ..self }
    }

    /// The table of stations to use.
    pub fn table(self, table: T) -> (r: Self)
        ensures
            r == (Self { table: Some(table), ..self }),
    {
        DecodeRequest { table: Some(table), ..self }
    }
}

/// What a decode at a known place starts from.
#[derive(Debug)]
pub enum Source<A> {
    /// Audio, which is decimated each time.
    Audio(A),
    /// A baseband that is decimated already.
    Baseband { idat: A, qdat: A },
}

/// A decode at a known place.
#[derive(Debug)]
pub struct SniperRequest<A, F, T> {
    pub source: Source<A>,
    pub sample_rate: u32,
    pub start_sample: usize,
    pub freq: F,
    /// None is no drift.
    pub drift: Option<F>,
    /// Lengths of coherent blocks to try, in order; 0 is one symbol with the
    /// other bit metric.
    pub nblocks: Vec<usize>,
    /// The stations that a decode beyond the convolutional one may be of;
    /// none of them without a table.
    pub confirmed: Option<T>,
    pub refine_drift: bool,
}

impl<A, F, T> SniperRequest<A, F, T> {
    /// From audio.
    pub fn new(audio: A, sample_rate: u32, start_sample: usize, freq: F) -> (r: Self)
        ensures
            r.source == Source::Audio(audio),
            r.at_first(sample_rate, start_sample, freq),
    {
        Self::with_source(Source::Audio(audio), sample_rate, start_sample, freq)
    }

    /// From a baseband.
    pub fn baseband(
        idat: A,
        qdat: A,
        sample_rate: u32,
        start_sample: usize,
        freq: F,
    ) -> (r: Self)
        ensures
            r.source == (Source::Baseband { idat, qdat }),
            r.at_first(sample_rate, start_sample, freq),
    {
        Self::with_source(Source::Baseband { idat, qdat }, sample_rate, start_sample, freq)
    }

    /// What a request is before any option is set: no drift, which the
    /// decoder refines, single symbols, and no table.
    pub open spec fn at_first(self, sample_rate: u32, start_sample: usize, freq: F) -> bool {
        &&& self.sample_rate == sample_rate
        &&& self.start_sample == start_sample
        &&& self.freq == freq
        &&& self.drift is None
        &&& self.nblocks@ == seq![1usize]
        &&& self.confirmed is None
        &&& self.refine_drift
    }

    fn with_source(
        source: Source<A>,
        sample_rate: u32,
        start_sample: usize,
        freq: F,
    ) -> (r: Self)
        ensures
            r.source == source,
            r.at_first(sample_rate, start_sample, freq),
    {
        let nblocks: Vec<usize> = vec![1];
        assert(nblocks@ =~= seq![1usize]);
        SniperRequest {
            source,
            sample_rate,
            start_sample,
            freq,
            drift: None,
            nblocks,
            confirmed: None,
            refine_drift: true,
        }
    }

    /// The drift over the frame.
    pub fn drift(self, drift: F) -> (r: Self)
        ensures
            r == (Self { drift: Some(drift), ..self }),
    {
        SniperRequest { drift: Some(drift), ..self }
    }

    /// The block lengths to try.
    pub fn nblocks(self, nblocks: Vec<usize>) -> (r: Self)
        ensures
            r == (Self { nblocks, ..self }),
    {
        SniperRequest { nblocks, ..self }
    }

    /// The stations that an earlier decode established.
    pub fn confirmed(self, table: T) -> (r: Self)
        ensures
            r == (Self { confirmed: Some(table), ..self }),
    {
        SniperRequest { confirmed: Some(table), ..self }
    }

    /// Whether drift is searched around the estimate or held.
    pub fn refine_drift(self, on: bool) -> (r: Self)
        ensures
            r == (Self { refine_drift: on, ..self }),
    {
        SniperRequest { refine_drift: on, ..self }
    }

    /// The sync that the refined place must reach, in hundredths: a held
    /// drift is let through with less.
    pub fn min_sync_hundredths(&self) -> (r: u32)
        ensures
            r == (if self.refine_drift {
                12u32
            } else {
                10
            }),
    {
        if self.refine_drift {
            12
        } else {
            10
        }
    }
}

}
