use memreclaim::config::{get_parent, get_threshold, parse_percent, bytes_threshold, ConfigError, Threshold};

#[test]
fn test_threshold() {
    let string = "50%";
    let threshold = get_threshold(string).unwrap();
    assert_eq!(threshold, Threshold::Percent(50 * 10_000));

    let string = "100";
    let threshold = get_threshold(string).unwrap();
    assert_eq!(threshold, Threshold::Bytes(100));

    let string = "100KB";
    let threshold = get_threshold(string).unwrap();
    assert_eq!(threshold, Threshold::Bytes(100_000));

    let string = "100KiB";
    let threshold = get_threshold(string).unwrap();
    assert_eq!(threshold, Threshold::Bytes(102_400));

    let string = "100MB";
    let threshold = get_threshold(string).unwrap();
    assert_eq!(threshold, Threshold::Bytes(100_000_000));

    let string = "100MiB";
    let threshold = get_threshold(string).unwrap();
    assert_eq!(threshold, Threshold::Bytes(104_857_600));

    let string = "100GB";
    let threshold = get_threshold(string).unwrap();
    assert_eq!(threshold, Threshold::Bytes(100_000_000_000));

    let string = "100GiB";
    let threshold = get_threshold(string).unwrap();
    assert_eq!(threshold, Threshold::Bytes(107_374_182_400));
}

#[test]
fn percent_with_fraction() {
    assert_eq!(get_threshold("12.5%"), Ok(Threshold::Percent(125_000)));
    assert_eq!(parse_percent("0.0001"), Some(1));
    assert_eq!(parse_percent("100"), Some(1_000_000));
}

#[test]
fn percent_errors() {
    assert_eq!(get_threshold("%"), Err(ConfigError::InvalidPercent));
    assert_eq!(get_threshold("abc%"), Err(ConfigError::InvalidPercent));
    assert_eq!(get_threshold("1.23456%"), Err(ConfigError::InvalidPercent));
    assert_eq!(get_threshold("5.%"), Err(ConfigError::InvalidPercent));
    assert_eq!(get_threshold("99999999999999999999%"), Err(ConfigError::InvalidPercent));
}

#[test]
fn byte_errors() {
    assert_eq!(get_threshold("abc"), Err(ConfigError::InvalidBytes));
    assert_eq!(get_threshold(""), Err(ConfigError::InvalidBytes));
}

#[test]
fn bytes_threshold_keeps_low_bits() {
    assert_eq!(bytes_threshold(7), Threshold::Bytes(7));
    assert_eq!(bytes_threshold((1u128 << 64) + 3), Threshold::Bytes(3));
}

#[test]
fn parent_directory() {
    assert_eq!(get_parent("/sys/fs/cgroup", true), Ok("/sys/fs/cgroup".to_string()));
    assert_eq!(get_parent("/nope", false), Err(ConfigError::InvalidDirectory));
}
