use kafka_lag_exporter::cli::{parse_cli_and_init_logging, Cli, CliError};
use kafka_lag_exporter::cluster_status::{ClusterStatus, ClusterStatusRegister};
use kafka_lag_exporter::exposition::prometheus_metrics;
use kafka_lag_exporter::kafka_types::TopicPartition;
use kafka_lag_exporter::lag_register::{CommittedOffsetSample, LagRegister};
use kafka_lag_exporter::register::{PartitionOffset, PartitionOffsetsRegister};
use kafka_lag_exporter::text_format::{u32_to_dec, u64_to_dec};

const T0: u64 = 1_700_000_000_000;

#[test]
fn decimal_rendering_is_exact() {
    assert_eq!(u64_to_dec(0), "0");
    assert_eq!(u64_to_dec(7), "7");
    assert_eq!(u64_to_dec(10), "10");
    assert_eq!(u64_to_dec(1_234_567_890), "1234567890");
    assert_eq!(u64_to_dec(u64::MAX), "18446744073709551615");
    assert_eq!(u32_to_dec(42), "42");
}

#[test]
fn metrics_body_for_empty_registers() {
    let po = PartitionOffsetsRegister::new(4);
    let lag = LagRegister::new();
    let tps: Vec<TopicPartition> = Vec::new();
    let body = prometheus_metrics("c1", &tps, &lag, &po);
    let expected = "\
# HELP consumer_partition_offset Last committed offset of a group on a partition\n\
# TYPE consumer_partition_offset gauge\n\n\
# HELP consumer_partition_lag_offset Lag of a group on a partition, in offsets\n\
# TYPE consumer_partition_lag_offset gauge\n\n\
# HELP consumer_partition_lag_milliseconds Lag of a group on a partition, in milliseconds\n\
# TYPE consumer_partition_lag_milliseconds gauge\n\n\
# HELP partition_earliest_available_offset Earliest offset available on a partition\n\
# TYPE partition_earliest_available_offset gauge\n\n\
# HELP partition_latest_available_offset Latest offset available on a partition\n\
# TYPE partition_latest_available_offset gauge\n\n\
# HELP partition_earliest_tracked_offset Earliest tracked offset of a partition\n\
# TYPE partition_earliest_tracked_offset gauge\n\n\
# HELP partition_latest_tracked_offset Latest tracked offset of a partition\n\
# TYPE partition_latest_tracked_offset gauge\n\n";
    assert_eq!(body, expected);
}

#[test]
fn metrics_body_renders_rows_and_partitions() {
    let mut po = PartitionOffsetsRegister::new(4);
    po.update(&PartitionOffset {
        topic: "orders".to_string(),
        partition: 0,
        earliest_offset: 10,
        latest_offset: 100,
        read_at_ms: T0,
    });
    po.update(&PartitionOffset {
        topic: "orders".to_string(),
        partition: 0,
        earliest_offset: 10,
        latest_offset: 200,
        read_at_ms: T0 + 10_000,
    });

    let mut lag = LagRegister::new();
    lag.update(
        &CommittedOffsetSample {
            group: "readers".to_string(),
            topic: "orders".to_string(),
            partition: 0,
            committed_offset: 150,
            committed_at_ms: T0,
            member_id: Some("m-1".to_string()),
        },
        &po,
    );

    // One known partition, one the register has never seen: the latter is
    // skipped, not failed.
    let tps = vec![
        TopicPartition::new("orders".to_string(), 0),
        TopicPartition::new("billing".to_string(), 7),
    ];

    let body = prometheus_metrics("c1", &tps, &lag, &po);

    assert!(body.contains(
        "consumer_partition_offset{cluster_id=\"c1\",group=\"readers\",topic=\"orders\",partition=\"0\",member_id=\"m-1\"} 150\n"
    ));
    assert!(body.contains(
        "consumer_partition_lag_offset{cluster_id=\"c1\",group=\"readers\",topic=\"orders\",partition=\"0\",member_id=\"m-1\"} 50\n"
    ));
    assert!(body.contains(
        "consumer_partition_lag_milliseconds{cluster_id=\"c1\",group=\"readers\",topic=\"orders\",partition=\"0\",member_id=\"m-1\"} 5000\n"
    ));
    assert!(body.contains(
        "partition_earliest_available_offset{cluster_id=\"c1\",topic=\"orders\",partition=\"0\"} 10\n"
    ));
    assert!(body.contains(
        "partition_latest_available_offset{cluster_id=\"c1\",topic=\"orders\",partition=\"0\"} 200\n"
    ));
    assert!(body.contains(&format!(
        "partition_earliest_tracked_offset{{cluster_id=\"c1\",topic=\"orders\",partition=\"0\",tracked_at_ms=\"{}\"}} 100\n",
        T0
    )));
    assert!(body.contains(&format!(
        "partition_latest_tracked_offset{{cluster_id=\"c1\",topic=\"orders\",partition=\"0\",tracked_at_ms=\"{}\"}} 200\n",
        T0 + 10_000
    )));
    assert!(!body.contains("billing"));
}

#[test]
fn cluster_status_snapshot_is_replaced_wholesale() {
    let mut reg = ClusterStatusRegister::new();
    assert_eq!(reg.get_cluster_id().as_str(), "");
    assert_eq!(reg.get_topic_partitions().len(), 0);
    reg.set(ClusterStatus {
        cluster_id: "c9".to_string(),
        brokers: Vec::new(),
        topic_partitions: vec![TopicPartition::new("orders".to_string(), 0)],
    });
    assert_eq!(reg.get_cluster_id().as_str(), "c9");
    assert_eq!(reg.get_topic_partitions().len(), 1);
    assert_eq!(reg.get_topic_partitions()[0].topic, "orders");
}

#[test]
fn cli_missing_brokers_is_fatal() {
    let r = parse_cli_and_init_logging(String::new(), None, None, None, 0, Vec::new());
    assert_eq!(r.err(), Some(CliError::MissingBrokers));
}

#[test]
fn cli_zero_history_is_fatal() {
    let r = parse_cli_and_init_logging(
        "localhost:9092".to_string(),
        None,
        Some(0),
        None,
        0,
        Vec::new(),
    );
    assert_eq!(r.err(), Some(CliError::InvalidHistorySize));
}

#[test]
fn cli_threshold_above_hundred_is_fatal() {
    let r = parse_cli_and_init_logging(
        "localhost:9092".to_string(),
        None,
        None,
        Some(101),
        0,
        Vec::new(),
    );
    assert_eq!(r.err(), Some(CliError::InvalidThreshold));
}

#[test]
fn cli_defaults_are_filled_in() {
    let cli: Cli = parse_cli_and_init_logging(
        "localhost:9092".to_string(),
        None,
        None,
        None,
        0,
        Vec::new(),
    )
    .expect("a broker list alone is a valid configuration");
    assert_eq!(cli.brokers, "localhost:9092");
    assert_eq!(cli.bind, "0.0.0.0:9090");
    assert_eq!(cli.history_size, 360);
    assert_eq!(cli.readiness_threshold, 30);
    assert_eq!(cli.verbosity, 0);
    assert!(cli.kafka_conf.is_empty());
}

#[test]
fn cli_explicit_options_are_kept() {
    let cli = parse_cli_and_init_logging(
        "b1:9092,b2:9092".to_string(),
        Some("127.0.0.1:8080".to_string()),
        Some(16),
        Some(75),
        2,
        vec![("security.protocol".to_string(), "plaintext".to_string())],
    )
    .expect("a fully explicit configuration is valid");
    assert_eq!(cli.brokers, "b1:9092,b2:9092");
    assert_eq!(cli.bind, "127.0.0.1:8080");
    assert_eq!(cli.history_size, 16);
    assert_eq!(cli.readiness_threshold, 75);
    assert_eq!(cli.verbosity, 2);
    assert_eq!(cli.kafka_conf.len(), 1);
}
