use kafka_lag_exporter::errors::PartitionOffsetsError;
use kafka_lag_exporter::lag_estimator::PartitionLagEstimator;
use kafka_lag_exporter::tracked_offset::TrackedOffset;

const T0: u64 = 1_700_000_000_000;

#[test]
fn empty_estimator_has_not_enough_data() {
    let est = PartitionLagEstimator::new(4);
    assert_eq!(est.estimate_offset_lag(0), Err(PartitionOffsetsError::NotEnoughData));
    assert_eq!(est.estimate_time_lag(0, T0), Err(PartitionOffsetsError::NotEnoughData));
    assert_eq!(est.earliest_tracked_offset(), Err(PartitionOffsetsError::NotEnoughData));
    assert_eq!(est.latest_tracked_offset(), Err(PartitionOffsetsError::NotEnoughData));
    assert_eq!(est.earliest_available_offset(), Err(PartitionOffsetsError::NotEnoughData));
    assert_eq!(est.latest_available_offset(), Err(PartitionOffsetsError::NotEnoughData));
}

#[test]
fn single_sample_lags() {
    let mut est = PartitionLagEstimator::new(4);
    est.update(10, 100, T0);
    assert_eq!(est.estimate_offset_lag(90), Ok(10));
    assert_eq!(est.estimate_offset_lag(200), Ok(0));
    assert_eq!(est.estimate_time_lag(100, T0), Ok(0));
    assert_eq!(est.earliest_available_offset(), Ok(10));
    assert_eq!(est.latest_available_offset(), Ok(100));
}

#[test]
fn two_samples_interpolation() {
    let mut est = PartitionLagEstimator::new(4);
    est.update(10, 100, T0);
    est.update(10, 200, T0 + 10_000);
    // Offset 150 sits halfway between 100 and 200, so its estimated
    // production instant is T0 + 5 s; the tail is at T0 + 10 s.
    assert_eq!(est.estimate_time_lag(150, T0), Ok(5_000));
}

#[test]
fn interpolation_at_bucket_edges() {
    let mut est = PartitionLagEstimator::new(4);
    est.update(0, 100, T0);
    est.update(0, 200, T0 + 10_000);
    // At the head offset the interpolated instant is the head's own.
    assert_eq!(est.estimate_time_lag(100, T0), Ok(10_000));
    // At or past the tail offset the lag saturates to zero.
    assert_eq!(est.estimate_time_lag(200, T0), Ok(0));
    assert_eq!(est.estimate_time_lag(250, T0), Ok(0));
}

#[test]
fn below_window_reports_full_span() {
    let mut est = PartitionLagEstimator::new(4);
    est.update(50, 100, T0);
    est.update(50, 200, T0 + 10_000);
    // Offset 40 is below the tracked window: the full span from the
    // consumer's commit instant to the tail is reported.
    assert_eq!(est.estimate_time_lag(40, T0 - 2_000), Ok(12_000));
    // A commit instant past the tail saturates to zero.
    assert_eq!(est.estimate_time_lag(40, T0 + 20_000), Ok(0));
}

#[test]
fn eviction_drops_the_oldest() {
    let mut est = PartitionLagEstimator::new(2);
    est.update(0, 100, T0);
    est.update(0, 200, T0 + 1_000);
    est.update(0, 300, T0 + 2_000);
    assert_eq!(
        est.earliest_tracked_offset(),
        Ok(TrackedOffset { offset: 200, at_ms: T0 + 1_000 })
    );
    assert_eq!(
        est.latest_tracked_offset(),
        Ok(TrackedOffset { offset: 300, at_ms: T0 + 2_000 })
    );
}

#[test]
fn flat_segment_merges() {
    let mut est = PartitionLagEstimator::new(4);
    est.update(0, 100, T0);
    est.update(0, 100, T0 + 1_000);
    assert_eq!(
        est.earliest_tracked_offset(),
        Ok(TrackedOffset { offset: 100, at_ms: T0 + 1_000 })
    );
    assert_eq!(
        est.latest_tracked_offset(),
        Ok(TrackedOffset { offset: 100, at_ms: T0 + 1_000 })
    );
    // The merge kept the history at one entry out of four.
    assert_eq!(est.usage_percent(), 25);
}

#[test]
fn clock_regression_and_receding_watermark_are_discarded() {
    let mut est = PartitionLagEstimator::new(4);
    est.update(0, 100, T0);
    // Same instant: discarded.
    est.update(0, 150, T0);
    assert_eq!(est.latest_tracked_offset(), Ok(TrackedOffset { offset: 100, at_ms: T0 }));
    // Earlier instant: discarded.
    est.update(0, 150, T0 - 1_000);
    assert_eq!(est.latest_tracked_offset(), Ok(TrackedOffset { offset: 100, at_ms: T0 }));
    // Receding watermark: discarded.
    est.update(0, 90, T0 + 1_000);
    assert_eq!(est.latest_tracked_offset(), Ok(TrackedOffset { offset: 100, at_ms: T0 }));
    // The earliest watermark still followed the samples.
    assert_eq!(est.earliest_available_offset(), Ok(0));
}

#[test]
fn update_is_idempotent() {
    let mut once = PartitionLagEstimator::new(3);
    once.update(5, 100, T0);
    once.update(5, 200, T0 + 1_000);

    let mut twice = PartitionLagEstimator::new(3);
    twice.update(5, 100, T0);
    twice.update(5, 200, T0 + 1_000);
    twice.update(5, 200, T0 + 1_000);

    assert_eq!(once.earliest_tracked_offset(), twice.earliest_tracked_offset());
    assert_eq!(once.latest_tracked_offset(), twice.latest_tracked_offset());
    assert_eq!(once.earliest_available_offset(), twice.earliest_available_offset());
    assert_eq!(once.usage_percent(), twice.usage_percent());
}

#[test]
fn usage_percent_counts_fill() {
    let mut est = PartitionLagEstimator::new(4);
    assert_eq!(est.usage_percent(), 0);
    est.update(0, 100, T0);
    assert_eq!(est.usage_percent(), 25);
    est.update(0, 200, T0 + 1_000);
    est.update(0, 300, T0 + 2_000);
    est.update(0, 400, T0 + 3_000);
    assert_eq!(est.usage_percent(), 100);
    // Full history stays full through eviction.
    est.update(0, 500, T0 + 4_000);
    assert_eq!(est.usage_percent(), 100);
}

#[test]
fn many_interleaved_updates_and_reads() {
    // A writer pushes monotonically increasing samples while a reader asks
    // for the lag after every push: the estimate never fails and never
    // exceeds the distance to the tail.
    let mut est = PartitionLagEstimator::new(16);
    for i in 0..10_000u64 {
        est.update(0, 100 + i, T0 + i * 10);
        let lag = est.estimate_offset_lag(100).expect("history is never empty here");
        assert_eq!(lag, i);
        let tlag = est.estimate_time_lag(100 + i, T0 + i * 10).expect("saturated at tail");
        assert_eq!(tlag, 0);
    }
}
