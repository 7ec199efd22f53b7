use gipfelkreuzer::peaks::gipfelkreuzer::{u64_median, ConsensusPeakAggregator};
use gipfelkreuzer::peaks::PeakData;

#[test]
fn test_u64_median() {
    // Central value.
    assert_eq!(8, u64_median(vec![1, 8, 56]));
    // Mean of central values.
    assert_eq!(32, u64_median(vec![1, 8, 56, 353631]));
    // Rounding of mean of central value.
    assert_eq!(32, u64_median(vec![1, 9, 56, 353631]));
}

#[test]
#[should_panic]
fn test_u64_median_empty() {
    u64_median(Vec::new());
}

#[test]
fn test_consensus_peak_aggregator_from_peak_data() {
    let peak = PeakData::new(42, 42u64, 84u64, 63u64).unwrap();
    let aggregator = ConsensusPeakAggregator::from(peak);
    assert_eq!(peak.id(), aggregator.id());
    assert_eq!(peak.length(), aggregator.length());
    assert_eq!(peak.summit(), aggregator.summit());
    let consensus: PeakData = aggregator.into();
    assert_eq!(consensus, peak);
}

#[test]
fn test_consensus_peak_aggregator_into_peak_data() {
    let start_peak = PeakData::new(42, 42u64, 84u64, 63u64).unwrap();
    let peaks: Vec<ConsensusPeakAggregator> = vec![
        PeakData::new(43, 44u64, 85u64, 61u64).unwrap().into(),
        PeakData::new(44, 43u64, 83u64, 62u64).unwrap().into(),
    ];
    let expected_consensus_peak = PeakData::new(42, 43u64, 84u64, 62u64).unwrap();
    let mut aggregator = ConsensusPeakAggregator::from(start_peak);
    for peak in peaks {
        assert!(aggregator.try_aggregate(peak).is_none());
    }
    let consensus: PeakData = aggregator.into();
    assert_eq!(consensus, expected_consensus_peak);
}

#[test]
fn test_consensus_peak_aggregator_try_aggregate_single() {
    let start_peak = PeakData::new(42, 42u64, 84u64, 63u64).unwrap();
    let peaks: Vec<ConsensusPeakAggregator> = vec![
        PeakData::new(43, 44u64, 85u64, 61u64).unwrap().into(),
        PeakData::new(44, 43u64, 83u64, 65u64).unwrap().into(),
        PeakData::new(90, 90u64, 120u64, 100u64).unwrap().into(),
    ];
    let expected_consensus_peak = PeakData::new(42, 43u64, 84u64, 63u64).unwrap();
    let mut aggregator = ConsensusPeakAggregator::from(start_peak);
    assert_eq!(aggregator.number_aggregated_peaks(), 1);
    assert!(aggregator.try_aggregate(peaks[0].clone()).is_none());
    assert_eq!(aggregator.summit(), 62u64);
    assert_eq!(aggregator.length(), 42);
    assert_eq!(aggregator.number_aggregated_peaks(), 2);
    assert!(aggregator.try_aggregate(peaks[1].clone()).is_none());
    assert_eq!(aggregator.summit(), 63u64);
    assert_eq!(aggregator.length(), 42);
    assert_eq!(aggregator.number_aggregated_peaks(), 3);
    assert_eq!(aggregator.try_aggregate(peaks[2].clone()), Some(peaks[2].clone()));
    assert_eq!(aggregator.number_aggregated_peaks(), 3);
    assert_eq!(aggregator.summit(), 63u64);
    assert_eq!(aggregator.length(), 42);

    let consensus: PeakData = aggregator.into();
    assert_eq!(consensus, expected_consensus_peak);
}

#[test]
fn test_consensus_peak_aggregator_try_aggregate_multiple() {
    let start_peak = PeakData::new(42, 42u64, 84u64, 63u64).unwrap();
    let peaks: Vec<ConsensusPeakAggregator> = vec![
        PeakData::new(43, 44u64, 85u64, 61u64).unwrap().into(),
        PeakData::new(44, 43u64, 83u64, 65u64).unwrap().into(),
    ];
    let mut aggregator = ConsensusPeakAggregator::from(start_peak);
    for peak in peaks {
        assert!(aggregator.try_aggregate(peak).is_none());
    }

    // Creates a consensus peak that should merge
    let start_peak_merge = PeakData::new(45, 39u64, 84u64, 64u64).unwrap();
    let peaks_merge: Vec<ConsensusPeakAggregator> = vec![
        PeakData::new(46, 34u64, 95u64, 64u64).unwrap().into(),
        PeakData::new(47, 40u64, 93u64, 65u64).unwrap().into(),
    ];
    let mut aggregator_merge = ConsensusPeakAggregator::from(start_peak_merge);
    for peak in peaks_merge {
        assert!(aggregator_merge.try_aggregate(peak).is_none());
    }

    // Creates a consensus peak that should not merge.
    let start_peak_no_merge = PeakData::new(420, 420u64, 840u64, 630u64).unwrap();
    let peaks_no_merge: Vec<ConsensusPeakAggregator> = vec![
        PeakData::new(430, 440u64, 850u64, 610u64).unwrap().into(),
        PeakData::new(440, 430u64, 830u64, 650u64).unwrap().into(),
    ];
    let mut aggregator_no_merge = ConsensusPeakAggregator::from(start_peak_no_merge);
    for peak in peaks_no_merge {
        assert!(aggregator_no_merge.try_aggregate(peak).is_none());
    }

    assert_eq!(aggregator.number_aggregated_peaks(), 3);
    assert_eq!(aggregator.summit(), 63u64);
    assert_eq!(aggregator.length(), 42);

    // Adds a consensus peak that consists of multiple raw peaks.
    assert!(aggregator.try_aggregate(aggregator_merge).is_none());
    assert_eq!(aggregator.number_aggregated_peaks(), 6);
    assert_eq!(aggregator.summit(), 64u64);
    assert_eq!(aggregator.length(), 44);

    // Fails to add another peak.
    assert_eq!(
        aggregator.try_aggregate(aggregator_no_merge.clone()),
        Some(aggregator_no_merge)
    );
    assert_eq!(aggregator.number_aggregated_peaks(), 6);
    assert_eq!(aggregator.summit(), 64u64);
    assert_eq!(aggregator.length(), 44);

    let expected_consensus_peak = PeakData::new(42, 41u64, 84u64, 64u64).unwrap();
    let consensus: PeakData = aggregator.into();
    assert_eq!(consensus, expected_consensus_peak);
}
