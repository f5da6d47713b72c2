use kafka_lag_exporter::errors::PartitionOffsetsError;
use kafka_lag_exporter::kafka_types::TopicPartition;
use kafka_lag_exporter::lag_register::{CommittedOffsetSample, LagRegister};
use kafka_lag_exporter::register::{PartitionOffset, PartitionOffsetsRegister};
use kafka_lag_exporter::tracked_offset::TrackedOffset;

const T0: u64 = 1_700_000_000_000;

fn sample(topic: &str, partition: u32, earliest: u64, latest: u64, at_ms: u64) -> PartitionOffset {
    PartitionOffset {
        topic: topic.to_string(),
        partition,
        earliest_offset: earliest,
        latest_offset: latest,
        read_at_ms: at_ms,
    }
}

#[test]
fn unknown_partition_is_reported() {
    let reg = PartitionOffsetsRegister::new(4);
    let tp = TopicPartition::new("orders".to_string(), 3);
    assert_eq!(
        reg.estimate_offset_lag(&tp, 0),
        Err(PartitionOffsetsError::LagEstimatorNotFound("orders".to_string(), 3))
    );
    assert_eq!(
        reg.get_latest_tracked_offset(&tp),
        Err(PartitionOffsetsError::LagEstimatorNotFound("orders".to_string(), 3))
    );
}

#[test]
fn register_tracks_partitions_independently() {
    let mut reg = PartitionOffsetsRegister::new(4);
    reg.update(&sample("orders", 0, 0, 100, T0));
    reg.update(&sample("orders", 1, 0, 500, T0));
    reg.update(&sample("orders", 0, 0, 200, T0 + 1_000));

    let tp0 = TopicPartition::new("orders".to_string(), 0);
    let tp1 = TopicPartition::new("orders".to_string(), 1);
    assert_eq!(reg.estimate_offset_lag(&tp0, 150), Ok(50));
    assert_eq!(reg.estimate_offset_lag(&tp1, 150), Ok(350));
    assert_eq!(
        reg.get_earliest_tracked_offset(&tp0),
        Ok(TrackedOffset { offset: 100, at_ms: T0 })
    );
    assert_eq!(
        reg.get_latest_tracked_offset(&tp0),
        Ok(TrackedOffset { offset: 200, at_ms: T0 + 1_000 })
    );
    assert_eq!(reg.get_earliest_available_offset(&tp0), Ok(0));
    assert_eq!(reg.get_latest_available_offset(&tp0), Ok(200));
}

#[test]
fn same_partition_number_of_other_topic_is_distinct() {
    let mut reg = PartitionOffsetsRegister::new(4);
    reg.update(&sample("orders", 0, 0, 100, T0));
    reg.update(&sample("billing", 0, 0, 900, T0));
    let orders = TopicPartition::new("orders".to_string(), 0);
    let billing = TopicPartition::new("billing".to_string(), 0);
    assert_eq!(reg.get_latest_available_offset(&orders), Ok(100));
    assert_eq!(reg.get_latest_available_offset(&billing), Ok(900));
}

#[test]
fn usage_aggregates_min_max_avg() {
    let mut reg = PartitionOffsetsRegister::new(4);
    assert_eq!(reg.get_usage(), (0, 0, 0, 0));

    // One partition with three samples, one with one.
    reg.update(&sample("orders", 0, 0, 100, T0));
    reg.update(&sample("orders", 0, 0, 200, T0 + 1_000));
    reg.update(&sample("orders", 0, 0, 300, T0 + 2_000));
    reg.update(&sample("orders", 1, 0, 100, T0));
    assert_eq!(reg.get_usage(), (25, 75, 50, 2));
}

#[test]
fn readiness_gate_threshold() {
    let mut reg = PartitionOffsetsRegister::new(4);
    // An empty register is never ready.
    assert!(!reg.is_ready(75));

    // Three samples out of four on every partition: average is exactly the
    // threshold, so not ready yet.
    for p in 0..2u32 {
        reg.update(&sample("orders", p, 0, 100, T0));
        reg.update(&sample("orders", p, 0, 200, T0 + 1_000));
        reg.update(&sample("orders", p, 0, 300, T0 + 2_000));
    }
    assert_eq!(reg.get_usage(), (75, 75, 75, 2));
    assert!(!reg.is_ready(75));

    // The fourth sample pushes the average past the threshold.
    reg.update(&sample("orders", 0, 0, 400, T0 + 3_000));
    reg.update(&sample("orders", 1, 0, 400, T0 + 3_000));
    assert!(reg.is_ready(75));
}

#[test]
fn lag_register_joins_known_partition() {
    let mut po = PartitionOffsetsRegister::new(4);
    po.update(&sample("orders", 0, 10, 100, T0));
    po.update(&sample("orders", 0, 10, 200, T0 + 10_000));

    let mut lag = LagRegister::new();
    lag.update(
        &CommittedOffsetSample {
            group: "readers".to_string(),
            topic: "orders".to_string(),
            partition: 0,
            committed_offset: 150,
            committed_at_ms: T0,
            member_id: Some("member-1".to_string()),
        },
        &po,
    );

    let rows = lag.rows();
    assert_eq!(rows.len(), 1);
    assert_eq!(rows[0].0, "readers");
    assert_eq!(rows[0].1.topic, "orders");
    assert_eq!(rows[0].1.partition, 0);
    assert_eq!(rows[0].2.committed_offset, 150);
    assert_eq!(rows[0].2.offset_lag, Some(50));
    assert_eq!(rows[0].2.time_lag_ms, Some(5_000));
    assert_eq!(rows[0].2.owner_member_id, Some("member-1".to_string()));
}

#[test]
fn lag_register_records_unknown_lag() {
    let po = PartitionOffsetsRegister::new(4);
    let mut lag = LagRegister::new();
    lag.update(
        &CommittedOffsetSample {
            group: "readers".to_string(),
            topic: "orders".to_string(),
            partition: 0,
            committed_offset: 150,
            committed_at_ms: T0,
            member_id: None,
        },
        &po,
    );
    let rows = lag.rows();
    assert_eq!(rows.len(), 1);
    assert_eq!(rows[0].2.offset_lag, None);
    assert_eq!(rows[0].2.time_lag_ms, None);
    assert_eq!(rows[0].2.owner_member_id, None);
}

#[test]
fn lag_register_replaces_entry_on_new_sample() {
    let mut po = PartitionOffsetsRegister::new(4);
    po.update(&sample("orders", 0, 0, 100, T0));

    let mut lag = LagRegister::new();
    for committed in [40u64, 60u64] {
        lag.update(
            &CommittedOffsetSample {
                group: "readers".to_string(),
                topic: "orders".to_string(),
                partition: 0,
                committed_offset: committed,
                committed_at_ms: T0,
                member_id: None,
            },
            &po,
        );
    }
    let rows = lag.rows();
    assert_eq!(rows.len(), 1);
    assert_eq!(rows[0].2.committed_offset, 60);
    assert_eq!(rows[0].2.offset_lag, Some(40));
}
