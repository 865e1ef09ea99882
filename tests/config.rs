use hxx::{Config, ConfigError};

fn args(items: &[&str]) -> Vec<String> {
    items.iter().map(|s| s.to_string()).collect()
}

#[test]
fn valid_flags() {
    let flags = vec![
        String::from("-c"),
        String::from("10"),
        String::from("-g"),
        String::from("3"),
    ];

    let config = Config::build(flags);

    assert!(config.is_ok());

    let config = config.unwrap();
    assert_eq!(config.cols, 10);
    assert_eq!(config.byte_groups, 3);
}

#[test]
fn valid_without_flags() {
    let flags = vec![];
    let config = Config::build(flags).unwrap();

    assert_eq!(config.cols, 16);
    assert_eq!(config.byte_groups, 2);
}

#[test]
fn invalid_missing_value() {
    let flags = vec![String::from("-c")];
    let result = Config::build(flags);
    assert!(result.is_err());
}

#[test]
fn invalid_flag_value() {
    let flags = vec![String::from("-c"), String::from("300")];
    let result = Config::build(flags);
    assert!(result.is_err());
}

#[test]
fn invalid_unknown_flag() {
    let flags = vec![String::from("-z")];
    let result = Config::build(flags);
    assert!(result.is_err());
}

#[test]
fn paths_follow_flags() {
    let config = Config::build(args(&["-r", "in.hex", "out.bin", "extra"])).unwrap();
    assert!(config.reverse);
    assert_eq!(config.cols, 16);
    assert_eq!(config.byte_groups, 2);
    assert_eq!(config.input.as_deref(), Some("in.hex"));
    assert_eq!(config.output.as_deref(), Some("out.bin"));
}

#[test]
fn input_path_only() {
    let config = Config::build(args(&["-g", "4", "data.bin"])).unwrap();
    assert!(!config.reverse);
    assert_eq!(config.byte_groups, 4);
    assert_eq!(config.input.as_deref(), Some("data.bin"));
    assert_eq!(config.output, None);
}

#[test]
fn flags_stop_at_first_path() {
    let config = Config::build(args(&["file", "-r"])).unwrap();
    assert!(!config.reverse);
    assert_eq!(config.input.as_deref(), Some("file"));
    assert_eq!(config.output.as_deref(), Some("-r"));
}

#[test]
fn error_kinds() {
    assert_eq!(Config::build(args(&["-c"])).err(), Some(ConfigError::MissingValue));
    assert_eq!(Config::build(args(&["-g", "x"])).err(), Some(ConfigError::InvalidValue));
    assert_eq!(Config::build(args(&["-z"])).err(), Some(ConfigError::UnknownFlag));
    assert_eq!(Config::build(args(&["-"])).err(), Some(ConfigError::UnknownFlag));
    assert_eq!(Config::build(args(&["-h", "-z"])).err(), Some(ConfigError::UsageRequested));
    assert_eq!(Config::build(args(&["-v"])).err(), Some(ConfigError::VersionRequested));
    assert_eq!(ConfigError::UnknownFlag.message(), "unknown flag provided");
}

#[test]
fn zero_group_width_is_rejected() {
    assert_eq!(Config::build(args(&["-g", "0"])).err(), Some(ConfigError::InvalidValue));
    let config = Config::build(args(&["-c", "0"])).unwrap();
    assert_eq!(config.cols, 0);
}

#[test]
fn value_bounds() {
    assert_eq!(Config::parse_value(Some("256".to_string())), Ok(256));
    assert_eq!(Config::parse_value(Some("+10".to_string())), Ok(10));
    assert_eq!(Config::parse_value(Some("007".to_string())), Ok(7));
    assert_eq!(Config::parse_value(Some("0".to_string())), Ok(0));
    assert_eq!(Config::parse_value(Some("257".to_string())), Err(ConfigError::InvalidValue));
    assert_eq!(Config::parse_value(Some("".to_string())), Err(ConfigError::InvalidValue));
    assert_eq!(Config::parse_value(Some("+".to_string())), Err(ConfigError::InvalidValue));
    assert_eq!(Config::parse_value(Some("-1".to_string())), Err(ConfigError::InvalidValue));
    assert_eq!(Config::parse_value(Some(" 5".to_string())), Err(ConfigError::InvalidValue));
    assert_eq!(
        Config::parse_value(Some("18446744073709551616".to_string())),
        Err(ConfigError::InvalidValue)
    );
    assert_eq!(Config::parse_value(None), Err(ConfigError::MissingValue));
}

#[test]
fn later_flags_override_earlier_ones() {
    let config = Config::build(args(&["-c", "8", "-c", "12", "-r", "-g", "5"])).unwrap();
    assert_eq!(config.cols, 12);
    assert_eq!(config.byte_groups, 5);
    assert!(config.reverse);
}
