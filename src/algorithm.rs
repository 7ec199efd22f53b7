//! The choice of consensus peak algorithm, with its parameters.
use crate::error::ApplicationError;
use crate::peaks::gipfelkreuzer::{all_consensus, consensus_peaks};
use crate::peaks::harmoniser::{harmonised_consensus, harmonised_consensus_peaks};
use crate::peaks::simple::merge_peaks;
use crate::peaks::{binned, extent_peaks, peak_views, PeakData};
use vstd::prelude::*;

verus! {

/// A consensus peak algorithm together with its parameters.
#[derive(Clone, Copy, PartialEq, Eq, Debug, Structural)]
pub enum ConsensusAlgorithm {
    /// Iterative clustering by summit proximity with median coordinates.
    Gipfelkreuzer { max_iterations: usize, min_peaks_per_consensus: usize },
    /// One peak per bin spanning the bin.
    Simple,
    /// Fixed-radius windows around the summits, one peak per bin of enough windows.
    Harmonising { harmonising_distance: u64, min_peaks_per_consensus: usize },
}

impl ConsensusAlgorithm {
    /// The consensus peaks of one chromosome's peaks by this algorithm.
    pub fn consensus_peaks(&self, peaks: Vec<PeakData>) -> (r: Result<Vec<PeakData>, ApplicationError>)
        ensures
            r is Ok,
            r is Ok ==> peak_views(r->Ok_0@) == match *self {
                ConsensusAlgorithm::Gipfelkreuzer { max_iterations, min_peaks_per_consensus } =>
                    all_consensus(
                    binned(peak_views(peaks@)),
                    max_iterations as nat,
                    min_peaks_per_consensus as nat,
                ),
                ConsensusAlgorithm::Simple => extent_peaks(binned(peak_views(peaks@))),
                ConsensusAlgorithm::Harmonising { harmonising_distance, min_peaks_per_consensus } =>
                    harmonised_consensus(
                    peak_views(peaks@),
                    harmonising_distance,
                    min_peaks_per_consensus as nat,
                ),
            },
    {
        match *self {
            ConsensusAlgorithm::Gipfelkreuzer { max_iterations, min_peaks_per_consensus } => {
                Ok(consensus_peaks(peaks, max_iterations, min_peaks_per_consensus))
            },
            ConsensusAlgorithm::Simple => merge_peaks(peaks),
            ConsensusAlgorithm::Harmonising { harmonising_distance, min_peaks_per_consensus } => {
                harmonised_consensus_peaks(peaks, harmonising_distance, min_peaks_per_consensus)
            },
        }
    }
}

} // verus!
