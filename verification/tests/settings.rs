//! Configuration on exact values.

use latency_tracker::config::{
    is_power_of_two, parse_decimal, Config, ConfigError, Layout, Setting, Settings,
};

fn settings() -> Settings {
    Settings {
        window: None,
        stripes: None,
        flush_every: None,
        linear_max_ms: None,
        linear_step: None,
    }
}

fn text(s: &str) -> Option<String> {
    Some(String::from(s))
}

#[test]
fn no_settings_give_the_defaults() {
    let config = Config::from_settings(&settings()).unwrap();
    assert_eq!(config, Config::default());
    assert_eq!(config.window, 10);
    assert_eq!(config.stripes, 64);
    assert_eq!(config.flush_every, 512);
    assert_eq!(config.layout, Layout::Linear { max_ms: 5000, step: 10 });
    assert_eq!(config.layout.bins(), 501);
    assert_eq!(config.buckets(), 11);
}

#[test]
fn compact_sizes() {
    let config = Config::compact();
    assert_eq!(config.window, 10);
    assert_eq!(config.stripes, 64);
    assert_eq!(config.flush_every, 64);
    assert_eq!(config.layout, Layout::LinearLog);
}

#[test]
fn settings_override_the_defaults() {
    let config = Config::from_settings(&Settings {
        window: text("30"),
        stripes: text("128"),
        flush_every: text("1024"),
        linear_max_ms: text("10000"),
        linear_step: text("20"),
    })
    .unwrap();
    assert_eq!(config.window, 30);
    assert_eq!(config.stripes, 128);
    assert_eq!(config.flush_every, 1024);
    assert_eq!(config.layout, Layout::Linear { max_ms: 10_000, step: 20 });
    assert_eq!(config.layout.bins(), 501);
    assert_eq!(Config::checked(30, 128, 1024, 10_000, 20), Ok(config));
}

#[test]
fn every_rule_is_checked() {
    assert_eq!(Config::checked(0, 64, 512, 5000, 10), Err(ConfigError::WindowZero));
    assert_eq!(Config::checked(10, 0, 512, 5000, 10), Err(ConfigError::StripesZero));
    assert_eq!(Config::checked(10, 48, 512, 5000, 10), Err(ConfigError::StripesNotPowerOfTwo));
    assert_eq!(Config::checked(10, 64, 0, 5000, 10), Err(ConfigError::FlushEveryZero));
    assert_eq!(Config::checked(10, 64, 512, 0, 10), Err(ConfigError::LinearMaxZero));
    assert_eq!(Config::checked(10, 64, 512, 5000, 0), Err(ConfigError::LinearStepZero));
    assert_eq!(Config::checked(10, 64, 512, 5, 10), Err(ConfigError::LinearMaxBelowStep));
    assert_eq!(Config::checked(10, 64, 512, 5005, 10), Err(ConfigError::LinearMaxNotMultiple));
    assert_eq!(Config::checked(u64::MAX, 64, 512, 5000, 10), Err(ConfigError::WindowTooLarge));
    assert_eq!(Config::checked(10, 64, 512, u64::MAX, 1), Err(ConfigError::HistogramTooLarge));
    // The first broken rule is the one that is reported.
    assert_eq!(Config::checked(0, 0, 0, 0, 0), Err(ConfigError::WindowZero));
}

#[test]
fn texts_that_are_no_numbers_are_rejected() {
    for bad in ["", "+", "-1", " 1", "1 ", "1_000", "x", "1.0", "18446744073709551616"] {
        let s = Settings { window: text(bad), ..settings() };
        assert_eq!(
            Config::from_settings(&s),
            Err(ConfigError::NotAnInteger(Setting::Window)),
            "{bad}"
        );
        let s = Settings { linear_step: text(bad), ..settings() };
        assert_eq!(
            Config::from_settings(&s),
            Err(ConfigError::NotAnInteger(Setting::LinearStep))
        );
    }
    let s = Settings { flush_every: text("4294967296"), ..settings() };
    assert_eq!(Config::from_settings(&s), Err(ConfigError::NotAnInteger(Setting::FlushEvery)));
    let s = Settings { stripes: text("many"), ..settings() };
    assert_eq!(Config::from_settings(&s), Err(ConfigError::NotAnInteger(Setting::Stripes)));
    let s = Settings { linear_max_ms: text("5s"), ..settings() };
    assert_eq!(Config::from_settings(&s), Err(ConfigError::NotAnInteger(Setting::LinearMaxMs)));
    // Texts are read before numbers are checked.
    let s = Settings { window: text("0"), linear_step: text("ten"), ..settings() };
    assert_eq!(Config::from_settings(&s), Err(ConfigError::NotAnInteger(Setting::LinearStep)));
}

#[test]
fn decimals_are_read_as_the_standard_library_reads_them() {
    for s in [
        "", "0", "7", "+7", "++7", "+", "-", "-0", "007", "00000000000000000000000000012", "12a", "a12",
        "18446744073709551615", "18446744073709551616", "99999999999999999999", "\u{663}", "1\u{663}",
    ] {
        assert_eq!(parse_decimal(s, u64::MAX), s.parse::<u64>().ok(), "{s}");
        assert_eq!(parse_decimal(s, u32::MAX as u64), s.parse::<u32>().ok().map(u64::from), "{s}");
    }
    assert_eq!(parse_decimal("4294967295", u32::MAX as u64), Some(4_294_967_295));
    assert_eq!(parse_decimal("4294967296", u32::MAX as u64), None);
}

#[test]
fn powers_of_two() {
    for x in 0..5_000usize {
        assert_eq!(is_power_of_two(x), x.is_power_of_two());
    }
    assert!(is_power_of_two(1 << 63));
    assert!(!is_power_of_two(usize::MAX));
}

#[test]
fn messages_name_the_setting() {
    assert_eq!(ConfigError::WindowZero.message(), "LATENCY_TRACKER_WINDOW must be greater than 0");
    assert_eq!(
        ConfigError::LinearMaxNotMultiple.message(),
        "LATENCY_TRACKER_LINEAR_MAX_MS must be divisible by LATENCY_TRACKER_LINEAR_STEP"
    );
    assert_eq!(Setting::Stripes.name(), "LATENCY_TRACKER_STRIPES");
    assert_eq!(ConfigError::NotAnInteger(Setting::Window).message(), "must be a positive integer");
}
