use leansig::cli::{check_config, parse_count, usage, ConfigError, CountError};

#[test]
fn counts_are_decimal_or_powers_of_two() {
    assert_eq!(parse_count("10"), Ok(10));
    assert_eq!(parse_count("+5"), Ok(5));
    assert_eq!(parse_count("2^10"), Ok(1024));
    assert_eq!(parse_count("2^+3"), Ok(8));
    assert_eq!(parse_count("2^0"), Ok(1));
    assert_eq!(parse_count("2"), Ok(2));
}

#[test]
fn bad_counts_are_refused() {
    assert_eq!(parse_count("0"), Err(CountError::Zero));
    assert_eq!(parse_count(""), Err(CountError::Invalid));
    assert_eq!(parse_count("+"), Err(CountError::Invalid));
    assert_eq!(parse_count("abc"), Err(CountError::Invalid));
    assert_eq!(parse_count("-3"), Err(CountError::Invalid));
    assert_eq!(parse_count("2^"), Err(CountError::Invalid));
    assert_eq!(parse_count("2^x"), Err(CountError::Invalid));
    assert_eq!(parse_count("2^4294967296"), Err(CountError::Invalid));
    assert_eq!(parse_count("2^4294967295"), Err(CountError::DoesNotFit));
    assert_eq!(parse_count("99999999999999999999999"), Err(CountError::Invalid));
    assert_eq!(parse_count(&usize::MAX.to_string()), Ok(usize::MAX));
    assert_eq!(parse_count(&format!("2^{}", usize::BITS)), Err(CountError::DoesNotFit));
}

#[test]
fn configurations_are_checked_in_order() {
    let lifetime = 1u64 << 32;
    assert_eq!(check_config(16, 1, false, false, lifetime), Ok(()));
    assert_eq!(check_config(16, 2, true, false, 8), Err(ConfigError::EpochsExceedLifetime));
    assert_eq!(check_config(16, 2, true, false, lifetime), Err(ConfigError::OutputPrefixNeedsOneRun));
    assert_eq!(check_config(16, 2, false, false, 16), Err(ConfigError::FullLifetimeNotConfirmed));
    assert_eq!(check_config(16, 1, true, true, 16), Ok(()));
}

#[test]
fn usage_names_the_options() {
    let text = usage();
    assert!(text.starts_with("Usage: keygen_lifetime32 --epochs"));
    assert!(text.contains("--allow-full-lifetime"));
}
