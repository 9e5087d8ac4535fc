use trimsec::calculate_remaining;
use trimsec::parse_duration;
use trimsec::parse_multiplier;
use trimsec::parse_time;
use trimsec::trim;
use trimsec::Config;
use trimsec::TimeBank;
use trimsec::TrimsecError;

#[test]
fn test_parse_duration() {
    assert_eq!(parse_duration("1s").unwrap(), (1, 1));
    assert_eq!(parse_duration("1m").unwrap(), (60, 1));
    assert_eq!(parse_duration("1h").unwrap(), (3600, 1));
    assert_eq!(parse_duration("1d").unwrap(), (86400, 1));
    assert_eq!(parse_duration("1d1h1m1s").unwrap(), (90061, 1));
    assert_eq!(parse_duration("1h+1m+1s").unwrap(), (3661, 3));
    assert_eq!(parse_duration("1.5h").unwrap(), (5400, 1));
    assert_eq!(parse_duration("1.5h+30m").unwrap(), (7200, 2));
    assert!(parse_duration("1x").is_err());
    assert!(parse_duration("1").is_err());
}

#[test]
fn test_parse_time() {
    assert_eq!(parse_time(1), "1s");
    assert_eq!(parse_time(60), "1m");
    assert_eq!(parse_time(3600), "1h");
    assert_eq!(parse_time(86400), "1d");
    assert_eq!(parse_time(90061), "1d1h1m1s");
}

#[test]
fn test_config_new() {
    assert!(Config::new("1s", "2x").is_ok());
    assert!(Config::new("1m", "1.5x").is_ok());
    assert!(Config::new("1h", "1.25x").is_ok());
    assert!(Config::new("1d", "2x").is_ok());
    assert!(Config::new("1d1h1m1s", "2x").is_ok());
    assert!(Config::new("1.5h", "2x").is_ok());
    assert!(Config::new("1.5h+30m", "2x").is_ok());
    assert!(Config::new("1x", "2x").is_err());
    assert!(Config::new("1", "2x").is_err());
}

#[test]
fn test_trim() {
    let config = Config::new("1d", "2x").unwrap();
    assert_eq!(trim(config).unwrap(), (43200, 43200, 1));
}

#[test]
fn test_run() {
    let config = Config::new("1d", "2x").unwrap();
    let result = trim(config).unwrap();
    assert_eq!(parse_time(result.0), "12h");
    assert_eq!(parse_time(result.1), "12h");
    assert_eq!(result.2, 1);
}

#[test]
fn test_add_time() {
    let mut bank = TimeBank { entries: vec![] };
    bank.add_time("2024-05-01", 100);
    // Add more saved seconds on the same day - should accumulate.
    bank.add_time("2024-05-01", 50);
    assert_eq!(bank.entries.len(), 1);
    assert_eq!(bank.entries[0].saved_time, 150);
}

#[test]
fn test_duration_delimiters() {
    assert_eq!(parse_duration("1h30m").unwrap(), (5400, 1));
    assert_eq!(parse_duration("1h+30m").unwrap(), (5400, 2));
}

#[test]
fn test_duration_whitespace_skipped() {
    assert_eq!(parse_duration("1h 30m").unwrap(), (5400, 1));
    assert_eq!(parse_duration(" 2m ").unwrap(), (120, 1));
}

#[test]
fn test_duration_empty_is_zero() {
    assert_eq!(parse_duration("").unwrap(), (0, 1));
}

#[test]
fn test_duration_error_variants() {
    assert_eq!(parse_duration("1"), Err(TrimsecError::InvalidDurationFormat));
    assert_eq!(parse_duration("1x"), Err(TrimsecError::InvalidTimeUnit));
    assert_eq!(parse_duration("x"), Err(TrimsecError::NegativeDuration));
    assert_eq!(parse_duration("1.2.3h"), Err(TrimsecError::NegativeDuration));
    assert_eq!(parse_duration("1h+2"), Err(TrimsecError::InvalidDurationFormat));
}

#[test]
fn test_format_zero_is_empty() {
    assert_eq!(parse_time(0), "");
}

#[test]
fn test_format_skips_zero_components() {
    assert_eq!(parse_time(86401), "1d1s");
    assert_eq!(parse_time(3659), "1h59s");
}

#[test]
fn test_format_then_parse_round_trip() {
    for n in [0u64, 1, 59, 60, 61, 3599, 3600, 86399, 86400, 90061, 123456789] {
        let formatted = parse_time(n);
        assert_eq!(parse_duration(&formatted).unwrap(), (n, 1));
    }
}

#[test]
fn test_multiplier_accepted() {
    let m = parse_multiplier("2x").unwrap();
    assert_eq!((m.num, m.den), (2, 1));
    let m = parse_multiplier("1.5x").unwrap();
    assert_eq!((m.num, m.den), (15, 10));
    let m = parse_multiplier("1.25").unwrap();
    assert_eq!((m.num, m.den), (125, 100));
    assert!(parse_multiplier("1x").is_ok());
}

#[test]
fn test_multiplier_rejected() {
    assert!(matches!(parse_multiplier("0.5x"), Err(TrimsecError::MultiplierOutOfRange)));
    assert!(matches!(parse_multiplier("100x"), Err(TrimsecError::MultiplierOutOfRange)));
    assert!(matches!(parse_multiplier("abc"), Err(TrimsecError::InvalidMultiplierFormat)));
    assert!(matches!(parse_multiplier(""), Err(TrimsecError::InvalidMultiplierFormat)));
    assert!(matches!(parse_multiplier(" 1.5x"), Err(TrimsecError::InvalidMultiplierFormat)));
    assert!(matches!(parse_multiplier("-2x"), Err(TrimsecError::InvalidMultiplierFormat)));
}

#[test]
fn test_trim_fractional_multiplier() {
    let config = Config::new("1h", "1.5x").unwrap();
    assert_eq!(trim(config).unwrap(), (2400, 1200, 1));
}

#[test]
fn test_calculate_remaining() {
    // at noon, 43199 seconds remain before 23:59:59
    assert_eq!(calculate_remaining(3600, 43200), 39599);
    assert_eq!(calculate_remaining(0, 0), 86399);
    // a duration longer than the rest of the day floors at zero
    assert_eq!(calculate_remaining(100000, 0), 0);
    assert_eq!(calculate_remaining(86399, 0), 0);
}

#[test]
fn test_add_time_two_days() {
    let mut bank = TimeBank { entries: vec![] };
    bank.add_time("2024-05-01", 100);
    bank.add_time("2024-05-02", 50);
    assert_eq!(bank.entries.len(), 2);
    assert_eq!(bank.entries[0].date, "2024-05-01");
    assert_eq!(bank.entries[1].date, "2024-05-02");
    assert_eq!(bank.total_saved(), 150);
}

#[test]
fn test_total_saved_empty() {
    let bank = TimeBank { entries: vec![] };
    assert_eq!(bank.total_saved(), 0);
}

#[test]
fn test_error_messages() {
    assert_eq!(
        TrimsecError::MultiplierOutOfRange.message(),
        "Multiplier must be greater than 1x and less than 100x."
    );
    assert_eq!(TrimsecError::InvalidDurationFormat.message(), "Invalid duration format!");
}
