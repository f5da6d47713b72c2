use vstd::prelude::*;

verus! {

/// How many tracked offsets each partition's history holds when the option
/// is not given.
pub const DEFAULT_HISTORY_SIZE: usize = 360;

/// Readiness threshold, in percent of average history fill, when the option
/// is not given.
pub const DEFAULT_READINESS_THRESHOLD: u64 = 30;

/// Validated configuration of the engine.
pub struct Cli {
    /// Initial brokers to contact, as `host:port` pairs.
    pub brokers: String,
    /// Address the metrics endpoint binds to.
    pub bind: String,
    /// Per-partition history capacity.
    pub history_size: usize,
    /// Percentage of average history fill past which the engine reports
    /// ready.
    pub readiness_threshold: u64,
    /// Extra `key=value` pairs forwarded to the Kafka client.
    pub kafka_conf: Vec<(String, String)>,
    /// Logging verbosity the surrounding binary applies.
    pub verbosity: u8,
}

/// A fatal startup error: the configuration cannot run the engine.
#[derive(Clone, Copy, Debug, PartialEq, Eq, Structural)]
pub enum CliError {
    /// The required broker list is missing or empty.
    MissingBrokers,
    /// A history of zero offsets cannot estimate anything.
    InvalidHistorySize,
    /// A readiness threshold is a percentage: at most 100.
    InvalidThreshold,
}

/// Validate the raw command-line options and fill in the defaults. The
/// surrounding binary splits its arguments, hands the option values here,
/// applies the returned verbosity to its logger and runs the engine with
/// the result; on an error it exits non-zero, as a fatal startup error
/// demands.
pub fn parse_cli_and_init_logging(
    brokers: String,
    bind: Option<String>,
    history_size: Option<usize>,
    readiness_threshold: Option<u64>,
    verbosity: u8,
    kafka_conf: Vec<(String, String)>,
) -> (r: Result<Cli, CliError>)
    ensures
        brokers@.len() == 0 ==> r == Err::<Cli, CliError>(CliError::MissingBrokers),
        brokers@.len() > 0 && (history_size matches Some(h) && h < 1) ==> r == Err::<
            Cli,
            CliError,
        >(CliError::InvalidHistorySize),
        brokers@.len() > 0 && !(history_size matches Some(h) && h < 1) && (readiness_threshold
            matches Some(t) && t > 100) ==> r == Err::<Cli, CliError>(CliError::InvalidThreshold),
        brokers@.len() > 0 && !(history_size matches Some(h) && h < 1) && !(readiness_threshold
            matches Some(t) && t > 100) ==> (r matches Ok(c) && c.brokers@ == brokers@ && c.bind@
            == (match bind {
            Some(b) => b@,
            None => "0.0.0.0:9090"@,
        }) && c.history_size == (match history_size {
            Some(h) => h,
            None => DEFAULT_HISTORY_SIZE,
        }) && c.history_size >= 1 && c.readiness_threshold == (match readiness_threshold {
            Some(t) => t,
            None => DEFAULT_READINESS_THRESHOLD,
        }) && c.readiness_threshold <= 100 && c.kafka_conf@ == kafka_conf@ && c.verbosity
            == verbosity),
{
    if brokers.as_str().is_empty() {
        return Err(CliError::MissingBrokers);
    }
    let history = match history_size {
        Some(h) => {
            if h < 1 {
                return Err(CliError::InvalidHistorySize);
            }
            h
        },
        None => DEFAULT_HISTORY_SIZE,
    };
    let threshold = match readiness_threshold {
        Some(t) => {
            if t > 100 {
                return Err(CliError::InvalidThreshold);
            }
            t
        },
        None => DEFAULT_READINESS_THRESHOLD,
    };
    let bind_addr = match bind {
        Some(b) => b,
        None => "0.0.0.0:9090".to_owned(),
    };
    Ok(
        Cli {
            brokers,
            bind: bind_addr,
            history_size: history,
            readiness_threshold: threshold,
            kafka_conf,
            verbosity,
        },
    )
}

} // verus!
