use minver_rs::{Level, LogLevel, MinverConfig, MinverError, Version};

#[test]
fn test_default_config() {
    let config = MinverConfig::default();
    assert!(matches!(config.log_level, LogLevel::Warn));
    assert!(matches!(config.auto_increment_level, Level::Patch));
    assert_eq!(None, config.build_metadata);
    assert_eq!("alpha", config.prerelease_identifier);
    assert_eq!("", config.tag_prefix);
}

#[test]
fn test_from_settings_defaults() {
    let config = MinverConfig::from_settings(None, None, None, None, None).unwrap();
    assert!(matches!(config.log_level, LogLevel::Warn));
    assert!(matches!(config.auto_increment_level, Level::Patch));
    assert_eq!(None, config.build_metadata);
    assert_eq!("alpha", config.prerelease_identifier);
    assert_eq!("", config.tag_prefix);
}

#[test]
fn test_from_settings_reads_values() {
    let config = MinverConfig::from_settings(
        Some(String::from("DEBUG")),
        Some(String::from("Minor")),
        Some(String::from("build.42")),
        Some(String::from("rc")),
        Some(String::from("v")),
    )
    .unwrap();
    assert!(matches!(config.log_level, LogLevel::Debug));
    assert!(matches!(config.auto_increment_level, Level::Minor));
    assert_eq!(Some(String::from("build.42")), config.build_metadata);
    assert_eq!("rc", config.prerelease_identifier);
    assert_eq!("v", config.tag_prefix);
}

#[test]
fn test_from_settings_rejects_bad_log_level() {
    let err = MinverConfig::from_settings(Some(String::from("loud")), None, None, None, None)
        .err()
        .unwrap();
    assert!(matches!(err, MinverError::InvalidLogLevel));
}

#[test]
fn test_from_settings_rejects_bad_level() {
    // the level name match is exact, unlike the log level's
    let err = MinverConfig::from_settings(None, Some(String::from("minor")), None, None, None)
        .err()
        .unwrap();
    assert!(matches!(err, MinverError::InvalidLevel));
}

#[test]
fn test_from_settings_rejects_bad_build_metadata() {
    let err = MinverConfig::from_settings(None, None, Some(String::from("under_score")), None, None)
        .err()
        .unwrap();
    assert!(matches!(err, MinverError::InvalidBuildMetadata));
}

#[test]
fn test_from_settings_rejects_bad_prerelease_identifier() {
    let err = MinverConfig::from_settings(None, None, None, Some(String::from("01")), None)
        .err()
        .unwrap();
    assert!(matches!(err, MinverError::InvalidPrereleaseIdentifier));
}

#[test]
fn test_parse_error_kind() {
    let err = Version::parse("not-a-version").err().unwrap();
    assert!(matches!(err, MinverError::InvalidVersion));
}

#[test]
fn test_resolve_empty_candidates_gives_default() {
    let version = minver_rs::minver_core::resolve(&vec![], &MinverConfig::default()).unwrap();
    assert_eq!("0.0.0-alpha.0", version.render());
}

#[test]
fn test_resolve_picks_highest_precedence() {
    let candidates = vec![
        (Version::parse("1.2.3").unwrap(), 2),
        (Version::parse("1.3.0").unwrap(), 3),
        (Version::parse("0.9.0").unwrap(), 1),
    ];
    let version = minver_rs::minver_core::resolve(&candidates, &MinverConfig::default()).unwrap();
    assert_eq!("1.3.1-alpha.3", version.render());
}

#[test]
fn test_resolve_breaks_precedence_ties_by_smaller_height() {
    let candidates = vec![
        (Version::parse("1.2.3").unwrap(), 4),
        (Version::parse("1.2.3").unwrap(), 2),
    ];
    let version = minver_rs::minver_core::resolve(&candidates, &MinverConfig::default()).unwrap();
    assert_eq!("1.2.4-alpha.2", version.render());
}

#[test]
fn test_resolve_overflow_is_an_error() {
    let candidates = vec![(Version::parse("1.2.4294967295").unwrap(), 1)];
    let err = minver_rs::minver_core::resolve(&candidates, &MinverConfig::default())
        .err()
        .unwrap();
    assert!(matches!(err, MinverError::Overflow));
}

#[test]
fn test_resolve_keeps_tagged_head_unchanged() {
    let candidates = vec![(Version::parse("9.9.9-rc.1+m").unwrap(), 0)];
    let version = minver_rs::minver_core::resolve(&candidates, &MinverConfig::default()).unwrap();
    assert_eq!("9.9.9-rc.1+m", version.render());
}
