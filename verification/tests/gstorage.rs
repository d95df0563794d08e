use tectonicdb::gstorage::{find, parse_decimal, GStorageConfig, DEFAULT_INTERVAL};

fn settings(pairs: &[(&str, &str)]) -> Vec<(String, String)> {
    pairs.iter().map(|(k, v)| (k.to_string(), v.to_string())).collect()
}

#[test]
fn should_return_config() {
    let conf = settings(&[
        ("oauth", "SECRET-REDACTED"),
        ("bucket-name", "tectonic"),
        ("folder", "dtf"),
        ("interval", "600"),
    ]);
    let config = GStorageConfig::new(conf.clone());
    assert_eq!(config.conf, conf);
    assert_eq!(config.oauth_token.as_deref(), Some("SECRET-REDACTED"));
    assert_eq!(config.bucket_name, "tectonic");
    assert_eq!(config.folder, "dtf");
    assert_eq!(config.interval, 600);
}

#[test]
fn missing_settings_take_their_defaults() {
    let config = GStorageConfig::new(settings(&[("bucket-name", "b")]));
    assert_eq!(config.oauth_token, None);
    assert_eq!(config.bucket_name, "b");
    assert_eq!(config.folder, "");
    assert_eq!(config.interval, 3600);
    assert_eq!(DEFAULT_INTERVAL, 3600);
}

#[test]
fn settings_without_a_bucket_or_with_a_bad_interval_give_no_config() {
    assert!(GStorageConfig::from_settings(settings(&[("folder", "f")])).is_none());
    assert!(GStorageConfig::from_settings(Vec::new()).is_none());
    assert!(GStorageConfig::from_settings(settings(&[("bucket-name", "b"), ("interval", "1h")])).is_none());
    assert!(GStorageConfig::from_settings(settings(&[("bucket-name", "b"), ("interval", "")])).is_none());
    let config = GStorageConfig::from_settings(settings(&[("interval", "+60"), ("bucket-name", "b")])).unwrap();
    assert_eq!(config.interval, 60);
    assert_eq!(config.bucket_name, "b");
}

#[test]
fn first_setting_of_a_name_wins() {
    let conf = settings(&[("folder", "one"), ("bucket-name", "b"), ("folder", "two")]);
    assert_eq!(find(&conf, "folder"), Some("one".to_string()));
    assert_eq!(find(&conf, "Folder"), None);
    assert_eq!(GStorageConfig::new(conf).folder, "one");
}

#[test]
fn decimal_numbers_are_read_as_the_standard_library_reads_them() {
    let texts = [
        "0", "7", "3600", "007", "+5", "+", "", "-1", "1 ", " 1", "12a", "١٢", "1_000", "++1", "+-1",
        "18446744073709551615", "18446744073709551616", "99999999999999999999", "+18446744073709551615",
        "184467440737095516150", "0x10", "1e3",
    ];
    for text in texts {
        assert_eq!(parse_decimal(text), text.parse::<u64>().ok(), "{:?}", text);
    }
    assert_eq!(parse_decimal("3600"), Some(3600));
    assert_eq!(parse_decimal("18446744073709551615"), Some(u64::MAX));
    assert_eq!(parse_decimal("18446744073709551616"), None);
}
