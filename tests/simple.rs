use gipfelkreuzer::peaks::simple::merge_peaks;
use gipfelkreuzer::peaks::PeakData;

#[test]
fn test_merge_peaks() {
    let peaks = vec![
        PeakData::new(0, 12u64, 24u64, 18u64).unwrap(),
        PeakData::new(1, 11u64, 21u64, 17u64).unwrap(),
        PeakData::new(2, 23u64, 26u64, 24u64).unwrap(),
        PeakData::new(3, 27u64, 29u64, 27u64).unwrap(),
        PeakData::new(4, 260u64, 290u64, 270u64).unwrap(),
        PeakData::new(5, 259u64, 277u64, 270u64).unwrap(),
    ];
    let expected_consensus_peaks = vec![
        PeakData::new(0, 11u64, 29u64, 20u64).unwrap(),
        PeakData::new(1, 259u64, 290u64, 274u64).unwrap(),
    ];
    let consensus_peaks = merge_peaks(peaks).unwrap();
    assert_eq!(consensus_peaks.len(), expected_consensus_peaks.len());
    for consensus_peak in consensus_peaks {
        assert!(
            expected_consensus_peaks.contains(&consensus_peak),
            "The consensus peak {:?} was not in the list of expected peaks: {:?}",
            consensus_peak,
            expected_consensus_peaks
        )
    }
}
