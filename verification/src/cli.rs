//! The command line as plain values: which subcommand runs, on which inputs,
//! and what the program refuses before reading anything.
use std::path::PathBuf;
use vstd::prelude::*;

verus! {

/// A file path, carried through unchanged.
#[verifier::external_type_specification]
#[verifier::external_body]
pub struct ExPathBuf(PathBuf);

/// How results are printed.
#[derive(Clone, Copy, Debug, PartialEq, Eq)]
pub enum Format {
    /// One value per line, or CSV rows for candles.
    Text,
    /// JSON on a single line.
    Json,
}

/// A subcommand with its arguments.
pub enum Command {
    Info,
    Vwap { file: PathBuf, format: Format },
    Sma { file: PathBuf, window: usize, format: Format },
    Ema { file: PathBuf, period: usize, format: Format },
    Aggregate { file: PathBuf, interval: i64, format: Format },
    Resample { file: PathBuf, interval: i64, format: Format },
    Returns { file: PathBuf, format: Format },
    Drawdown { file: PathBuf, format: Format },
    Stats { file: PathBuf, format: Format },
    Correlation { file_a: PathBuf, file_b: PathBuf, format: Format },
}

/// Why a command is refused before it runs.
#[derive(Debug, PartialEq, Eq)]
pub enum UsageError {
    /// A candle interval that is zero or negative.
    NonPositiveInterval(i64),
}

/// The candle interval a command takes, if it takes one.
pub open spec fn interval_of(command: Command) -> Option<i64> {
    match command {
        Command::Aggregate { interval, .. } => Some(interval),
        Command::Resample { interval, .. } => Some(interval),
        _ => None,
    }
}

/// The command to run: `info` when no subcommand was given; a command whose
/// candle interval is not positive is refused; any other runs as given.
pub fn resolve_command(given: Option<Command>) -> (r: Result<Command, UsageError>)
    ensures
        given is None ==> r == Ok::<Command, UsageError>(Command::Info),
        given matches Some(c) ==> match interval_of(c) {
            Some(i) => if i <= 0 {
                r == Err::<Command, UsageError>(UsageError::NonPositiveInterval(i))
            } else {
                r == Ok::<Command, UsageError>(c)
            },
            None => r == Ok::<Command, UsageError>(c),
        },
        given matches Some(Command::Aggregate { interval, .. }) ==> (r is Ok <==> interval > 0),
        given matches Some(Command::Resample { interval, .. }) ==> (r is Ok <==> interval > 0),
        given matches Some(Command::Aggregate { interval, .. }) ==> (interval <= 0 ==> r
            == Err::<Command, UsageError>(UsageError::NonPositiveInterval(interval))),
        given matches Some(Command::Resample { interval, .. }) ==> (interval <= 0 ==> r
            == Err::<Command, UsageError>(UsageError::NonPositiveInterval(interval))),
        given matches Some(c) ==> (r is Ok ==> r == Ok::<Command, UsageError>(c)),
{
    match given {
        None => Ok(Command::Info),
        Some(command) => {
            let interval = match &command {
                Command::Aggregate { interval, .. } => Some(*interval),
                Command::Resample { interval, .. } => Some(*interval),
                _ => None,
            };
            match interval {
                Some(i) => if i <= 0 {
                    Err(UsageError::NonPositiveInterval(i))
                } else {
                    Ok(command)
                },
                None => Ok(command),
            }
        },
    }
}

/// The interval a candle command takes is the one it was given: for aggregate
/// and resample, the interval field itself, with no rescaling.
pub proof fn lemma_interval_of_is_the_field(file: PathBuf, interval: i64, format: Format)
    ensures
        interval_of(Command::Aggregate { file, interval, format }) == Some(interval),
        interval_of(Command::Resample { file, interval, format }) == Some(interval),
{
}

} // verus!
