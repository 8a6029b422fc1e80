//! Lossless compression codecs for time series: Gorilla, decimal scaling, Chimp and Chimp128,
//! over a bit-level writer and reader, each proved to decode back exactly what it encoded.
//!
//! A point's value is carried as its raw IEEE-754 bit pattern, so two points compare equal
//! exactly when their timestamps and their bit patterns do: NaN payloads and the sign of zero
//! survive every round trip.
use vstd::prelude::*;

pub mod bits;
pub mod codec;
pub mod dataset;
pub mod error;
pub mod report;

pub use error::Error;

verus! {

/// A single observation: seconds since the Unix epoch, and the measured value as its raw
/// IEEE-754 bit pattern.
#[derive(Clone, Copy, Debug, PartialEq, Eq, Structural)]
pub struct Point {
    pub timestamp: i64,
    pub value: u64,
}

impl Point {
    pub fn new(timestamp: i64, value: u64) -> (p: Self)
        ensures
            p.timestamp == timestamp,
            p.value == value,
    {
        Point { timestamp, value }
    }
}

/// Bytes a point occupies uncompressed: an `i64` timestamp plus an `f64` value.
pub const RAW_POINT_BYTES: usize = 16;

} // verus!
