use gipfelkreuzer::algorithm::ConsensusAlgorithm;
use gipfelkreuzer::error::{ApplicationError, ApplicationErrorType};
use gipfelkreuzer::peaks::gipfelkreuzer::{consensus_peaks, u64_median};
use gipfelkreuzer::peaks::harmoniser::harmonised_consensus_peaks;
use gipfelkreuzer::peaks::simple::merge_peaks;
use gipfelkreuzer::peaks::{is_continuous_range, range_midpoint, PeakBin, PeakData, PeakMerger};
use gipfelkreuzer::text::decimal_string;

fn peak(id: usize, start: u64, end: u64, summit: u64) -> PeakData {
    PeakData::new(id, start, end, summit).unwrap()
}

#[test]
fn peak_data_new_reports_invalid_interval() {
    let err = PeakData::new(7, 20, 10, 15).unwrap_err();
    assert_eq!(err.error_type(), ApplicationErrorType::InvalidInterval);
    assert_eq!(err.internal_messages().len(), 1);
    assert_eq!(
        err.internal_messages()[0],
        "The end coordinate 10 of peak 7 is smaller than the start coordinate 20."
    );
}

#[test]
fn peak_data_new_reports_summit_out_of_range() {
    let before = PeakData::new(7, 10, 20, 9).unwrap_err();
    assert_eq!(before.error_type(), ApplicationErrorType::SummitOutOfRange);
    let after = PeakData::new(7, 10, 20, 21).unwrap_err();
    assert_eq!(after.error_type(), ApplicationErrorType::SummitOutOfRange);
    assert_eq!(
        after.internal_messages()[0],
        "The summit 21 of peak 7 is not within the peak region [10, 20]."
    );
}

#[test]
fn peak_data_new_start_after_end_takes_precedence() {
    let err = PeakData::new(1, 30, 10, 50).unwrap_err();
    assert_eq!(err.error_type(), ApplicationErrorType::InvalidInterval);
}

#[test]
fn peak_data_length_of_full_coordinate_range() {
    let p = peak(0, 0, u64::MAX, 5);
    assert_eq!(p.length(), u64::MAX as u128 + 1);
    assert_eq!(peak(0, 9, 9, 9).length(), 1);
}

#[test]
fn application_error_chain_keeps_messages_in_order() {
    let err = ApplicationError::new(ApplicationErrorType::IOError, "first").chain("second");
    assert_eq!(err.error_type(), ApplicationErrorType::IOError);
    assert_eq!(err.internal_messages(), &vec!["first".to_string(), "second".to_string()]);
}

#[test]
fn application_error_lists_messages_latest_first() {
    let mut err = ApplicationError::new(ApplicationErrorType::InternalError, "first");
    assert_eq!(err.format_internal_messages(), "000: first\n");
    err = err.chain("second");
    assert_eq!(err.format_internal_messages(), "000: second\n001: first\n");
    for k in 0..10 {
        err = err.chain(&format!("more {}", k));
    }
    let text = err.format_internal_messages();
    assert!(text.starts_with("000: more 9\n"));
    assert!(text.ends_with("010: second\n011: first\n"));
}

#[test]
fn continuity_at_coordinate_limits() {
    assert!(is_continuous_range(u64::MAX - 1, u64::MAX, u64::MAX, u64::MAX));
    assert!(is_continuous_range(0, 0, 1, u64::MAX));
    assert!(!is_continuous_range(0, 0, 2, u64::MAX));
    assert!(!is_continuous_range(u64::MAX, u64::MAX, 0, u64::MAX - 2));
}

#[test]
fn continuity_one_base_gap_on_either_side() {
    // A = [0, 42]: B ending right before A is impossible, so test B after A.
    assert!(is_continuous_range(0, 42, 43, 50));
    assert!(!is_continuous_range(0, 42, 44, 50));
    assert!(is_continuous_range(100, 142, 90, 99));
    assert!(!is_continuous_range(100, 142, 90, 98));
}

#[test]
fn median_of_unsorted_values() {
    assert_eq!(u64_median(vec![56, 1, 8]), 8);
    assert_eq!(u64_median(vec![353631, 56, 1, 8]), 32);
    assert_eq!(u64_median(vec![5]), 5);
}

#[test]
fn median_does_not_overflow() {
    assert_eq!(u64_median(vec![u64::MAX, u64::MAX - 1]), u64::MAX - 1);
    assert_eq!(u64_median(vec![u64::MAX, u64::MAX]), u64::MAX);
}

#[test]
fn midpoint_does_not_overflow() {
    assert_eq!(range_midpoint(u64::MAX - 10, u64::MAX), u64::MAX - 5);
    assert_eq!(range_midpoint(3, 4), 3);
    assert_eq!(range_midpoint(7, 7), 7);
}

#[test]
fn decimal_rendering() {
    assert_eq!(decimal_string(0), "0");
    assert_eq!(decimal_string(10), "10");
    assert_eq!(decimal_string(u64::MAX), "18446744073709551615");
}

#[test]
fn bin_peaks_keeps_input_order_of_equal_starts() {
    let peaks = vec![peak(0, 10, 20, 15), peak(1, 10, 12, 11), peak(2, 5, 9, 6)];
    let bins = PeakBin::bin_peaks(peaks.clone());
    assert_eq!(bins.len(), 1);
    assert_eq!(bins[0].start(), 5);
    assert_eq!(bins[0].end(), 20);
    assert_eq!(bins[0].peaks(), &vec![peaks[2], peaks[0], peaks[1]]);
}

#[test]
fn bin_peaks_of_nothing() {
    assert!(PeakBin::bin_peaks(Vec::new()).is_empty());
}

#[test]
fn rebinning_the_members_of_bins_gives_the_same_bins() {
    let peaks = vec![
        peak(0, 270, 290, 277),
        peak(1, 12, 22, 18),
        peak(2, 2700, 2900, 2770),
        peak(3, 23, 26, 24),
        peak(4, 11, 21, 17),
        peak(5, 271, 291, 276),
        peak(6, 27, 29, 27),
    ];
    let bins = PeakBin::bin_peaks(peaks);
    let members: Vec<PeakData> = bins.iter().flat_map(|bin| bin.peaks().clone()).collect();
    let again = PeakBin::bin_peaks(members);
    assert_eq!(again.len(), bins.len());
    for (a, b) in again.iter().zip(bins.iter()) {
        assert_eq!(a.start(), b.start());
        assert_eq!(a.end(), b.end());
        assert_eq!(a.peaks(), b.peaks());
    }
    assert_eq!(bins.len(), 3);
    assert_eq!(bins[0].peaks().len(), 4);
}

#[test]
fn gipfelkreuzer_clusters_by_summit_proximity() {
    let peaks = vec![peak(0, 10, 20, 15), peak(1, 12, 22, 16), peak(2, 100, 110, 105)];
    let consensus = consensus_peaks(peaks.clone(), 20, 0);
    assert_eq!(consensus, vec![peak(0, 11, 21, 15), peak(2, 100, 110, 105)]);
    let supported = consensus_peaks(peaks.clone(), 20, 2);
    assert_eq!(supported, vec![peak(0, 11, 21, 15)]);
    let single_pass = consensus_peaks(peaks, 0, 0);
    assert_eq!(single_pass, vec![peak(0, 11, 21, 15), peak(2, 100, 110, 105)]);
}

#[test]
fn gipfelkreuzer_shortest_peak_seeds_the_cluster() {
    let peaks = vec![
        peak(42, 42, 84, 63),
        peak(43, 44, 85, 61),
        peak(44, 43, 83, 65),
        peak(90, 90, 120, 100),
    ];
    let consensus = consensus_peaks(peaks, 20, 0);
    assert_eq!(consensus, vec![peak(44, 43, 84, 63), peak(90, 90, 120, 100)]);
}

#[test]
fn gipfelkreuzer_of_nothing() {
    assert!(consensus_peaks(Vec::new(), 20, 0).is_empty());
}

#[test]
fn peak_merger_uses_gipfelkreuzer_without_minimum() {
    let peaks = vec![peak(0, 10, 20, 15), peak(1, 12, 22, 16), peak(2, 100, 110, 105)];
    let merger = PeakMerger::new(peaks);
    assert_eq!(merger.bins().len(), 2);
    assert_eq!(merger.consensus_peaks(20), vec![peak(0, 11, 21, 15), peak(2, 100, 110, 105)]);
}

#[test]
fn simple_merge_at_coordinate_limit() {
    let merged = merge_peaks(vec![peak(5, u64::MAX - 10, u64::MAX, u64::MAX - 1)]).unwrap();
    assert_eq!(merged, vec![peak(0, u64::MAX - 10, u64::MAX, u64::MAX - 5)]);
}

#[test]
fn harmonised_consensus_numbers_surviving_bins() {
    let peaks = vec![peak(9, 100, 200, 150), peak(8, 1000, 1100, 1050), peak(7, 1010, 1090, 1060)];
    let consensus = harmonised_consensus_peaks(peaks, 10, 2).unwrap();
    assert_eq!(consensus, vec![peak(0, 1040, 1070, 1055)]);
}

#[test]
fn algorithm_choice_dispatches_to_each_engine() {
    let peaks = vec![peak(0, 10, 20, 15), peak(1, 12, 22, 16), peak(2, 100, 110, 105)];
    let gipfelkreuzer =
        ConsensusAlgorithm::Gipfelkreuzer { max_iterations: 20, min_peaks_per_consensus: 2 };
    assert_eq!(gipfelkreuzer.consensus_peaks(peaks.clone()).unwrap(), vec![peak(0, 11, 21, 15)]);
    assert_eq!(
        ConsensusAlgorithm::Simple.consensus_peaks(peaks.clone()).unwrap(),
        vec![peak(0, 10, 22, 16), peak(1, 100, 110, 105)]
    );
    let harmonising =
        ConsensusAlgorithm::Harmonising { harmonising_distance: 1, min_peaks_per_consensus: 0 };
    assert_eq!(
        harmonising.consensus_peaks(peaks).unwrap(),
        vec![peak(0, 14, 17, 15), peak(1, 104, 106, 105)]
    );
}
