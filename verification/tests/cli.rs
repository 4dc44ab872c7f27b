use ohlcv_tools::cli::{resolve_command, Command, Format, UsageError};
use std::path::PathBuf;

fn file() -> PathBuf {
    PathBuf::from("prices.csv")
}

#[test]
fn cli_definition_is_valid() {
    assert!(matches!(resolve_command(None), Ok(Command::Info)));
    let commands = vec![
        Command::Info,
        Command::Vwap { file: file(), format: Format::Text },
        Command::Sma { file: file(), window: 2, format: Format::Json },
        Command::Ema { file: file(), period: 2, format: Format::Text },
        Command::Aggregate { file: file(), interval: 60, format: Format::Text },
        Command::Resample { file: file(), interval: 300, format: Format::Json },
        Command::Returns { file: file(), format: Format::Json },
        Command::Drawdown { file: file(), format: Format::Json },
        Command::Stats { file: file(), format: Format::Text },
        Command::Correlation { file_a: file(), file_b: file(), format: Format::Json },
    ];
    for command in commands {
        assert!(resolve_command(Some(command)).is_ok());
    }
}

#[test]
fn aggregate_with_non_positive_interval_is_refused() {
    let r = resolve_command(Some(Command::Aggregate { file: file(), interval: 0, format: Format::Text }));
    assert_eq!(r.err(), Some(UsageError::NonPositiveInterval(0)));
    let r = resolve_command(Some(Command::Aggregate { file: file(), interval: -60, format: Format::Text }));
    assert_eq!(r.err(), Some(UsageError::NonPositiveInterval(-60)));
}

#[test]
fn resample_with_non_positive_interval_is_refused() {
    let r = resolve_command(Some(Command::Resample { file: file(), interval: 0, format: Format::Json }));
    assert_eq!(r.err(), Some(UsageError::NonPositiveInterval(0)));
}

#[test]
fn command_is_passed_through_unchanged() {
    match resolve_command(Some(Command::Sma { file: file(), window: 14, format: Format::Json })) {
        Ok(Command::Sma { file: f, window, format }) => {
            assert_eq!(f, file());
            assert_eq!(window, 14);
            assert_eq!(format, Format::Json);
        }
        _ => panic!("sma should run as given"),
    }
}
