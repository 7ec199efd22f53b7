//! The harmonising algorithm: every peak is replaced by a fixed-radius window around its
//! summit before binning, and each bin of enough peaks becomes one consensus peak.
use crate::error::ApplicationError;
use crate::peaks::{
    binned, extent_peaks, large_bins, peak_views, PeakBin, PeakData, PeakView,
};
use vstd::prelude::*;

verus! {

/// The window of radius `distance` around the summit, clamped to the coordinate range.
pub open spec fn harmonise(p: PeakView, distance: u64) -> PeakView {
    PeakView {
        id: p.id,
        start: if p.summit >= distance {
            (p.summit - distance) as u64
        } else {
            0
        },
        end: if p.summit + distance <= u64::MAX {
            (p.summit + distance) as u64
        } else {
            u64::MAX
        },
        summit: p.summit,
    }
}

/// The windows of all peaks, in order.
pub open spec fn windows_of(peaks: Seq<PeakView>, distance: u64) -> Seq<PeakView> {
    peaks.map_values(|p: PeakView| harmonise(p, distance))
}

/// The harmonised consensus peaks: the windows of all peaks are binned, the bins of at least
/// `min` peaks kept, and each becomes a peak spanning it, numbered in order.
pub open spec fn harmonised_consensus(peaks: Seq<PeakView>, distance: u64, min: nat) -> Seq<
    PeakView,
> {
    extent_peaks(large_bins(binned(windows_of(peaks, distance)), min))
}

/// Sets start and end of the peak at a fixed distance from its summit, clamped to the
/// coordinate range.
pub fn harmonise_peak(peak: PeakData, distance: u64) -> (r: PeakData)
    ensures
        r@ == harmonise(peak@, distance),
{
    let summit = peak.summit();
    let start = summit.saturating_sub(distance);
    let end = summit.saturating_add(distance);
    PeakData::from_valid(peak.id(), start, end, summit)
}

/// Creates harmonised consensus peaks from raw peaks based on summit proximity.
///
/// Every peak becomes the window of radius `harmonising_distance` around its summit; the
/// windows are binned, bins of fewer than `min_peaks_per_consensus` windows are dropped, and
/// each remaining bin becomes a peak spanning it, numbered in order, with the midpoint of the
/// bin as summit.
pub fn harmonised_consensus_peaks(
    peaks: Vec<PeakData>,
    harmonising_distance: u64,
    min_peaks_per_consensus: usize,
) -> (r: Result<Vec<PeakData>, ApplicationError>)
    ensures
        r is Ok,
        r is Ok ==> peak_views(r->Ok_0@) == harmonised_consensus(
            peak_views(peaks@),
            harmonising_distance,
            min_peaks_per_consensus as nat,
        ),
{
    let ghost views = peak_views(peaks@);
    let mut windows: Vec<PeakData> = Vec::with_capacity(peaks.len());
    let mut i: usize = 0;
    while i < peaks.len()
        invariant
            i <= peaks@.len(),
            views == peak_views(peaks@),
            peak_views(windows@) == windows_of(views, harmonising_distance).subrange(0, i as int),
        decreases peaks@.len() - i,
    {
        let ghost prior = windows@;
        let window = harmonise_peak(peaks[i], harmonising_distance);
        windows.push(window);
        proof {
            let all = windows_of(views, harmonising_distance);
            assert(window@ == all[i as int]);
            assert(peak_views(windows@) =~= peak_views(prior).push(window@));
            assert(all.subrange(0, i + 1) =~= all.subrange(0, i as int).push(all[i as int]));
        }
        i = i + 1;
    }
    proof {
        assert(peak_views(windows@) =~= windows_of(views, harmonising_distance));
    }
    let bins = PeakBin::bin_peaks(windows);
    crate::peaks::bins_to_extent_peaks(&bins, min_peaks_per_consensus, "harmonised")
}

} // verus!
