//! A high-dynamic-range histogram: records integer values spanning many
//! orders of magnitude while bounding relative error to a configured number
//! of significant decimal digits. Recording is O(1); memory is proportional
//! to the configured range and precision, not to the number of samples.

use vstd::prelude::*;

pub mod bucketing;
pub mod codec;
pub mod correction;
pub mod counting;
pub mod histogram;
pub mod iterate;
pub mod laws;
pub mod merge;
pub mod percentile;

pub use bucketing::BucketConfig;
pub use histogram::Histogram;
pub use iterate::{
    AllValuesIter, CountIterItem, LinearIter, LogIter, PercentileIter, PercentileIterItem,
    RecordedIter,
};
pub use percentile::Percentile;

verus! {

/// Failure cases surfaced by construction and by the codec.
#[derive(Debug)]
pub enum HistogramErr {
    /// Counter-array allocation failed.
    AllocFail,
    /// The `(lowest, highest, significant_figures)` combination is invalid.
    InitFailed,
    /// Encoded input was malformed; carries a short diagnostic.
    CodecFailed(&'static str),
}

} // verus!
