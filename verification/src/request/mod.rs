//! Requests for a decode, built up option by option.
//!
//! The samples, the frequencies and the tuning of a search are whatever the
//! decoder takes: a request carries them and never looks inside.

pub mod jt65;
pub mod jt9;
pub mod wspr;
