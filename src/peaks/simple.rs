//! The simple merging algorithm: one consensus peak per bin, spanning the bin.
use crate::error::ApplicationError;
use crate::peaks::{binned, extent_peaks, peak_views, PeakData, PeakMerger};
use vstd::prelude::*;

verus! {

/// Merges overlapping and adjacent peaks: one peak per bin spanning the bin's extent, with
/// the bin's position as identifier and the midpoint of the extent as summit.
pub fn merge_peaks(peaks: Vec<PeakData>) -> (r: Result<Vec<PeakData>, ApplicationError>)
    ensures
        r is Ok,
        r is Ok ==> peak_views(r->Ok_0@) == extent_peaks(binned(peak_views(peaks@))),
{
    let merger = PeakMerger::new(peaks);
    proof {
        crate::peaks::lemma_large_bins_zero(merger@);
    }
    crate::peaks::bins_to_extent_peaks(merger.bins(), 0, "simple merge")
}

} // verus!
