use std::cmp::Ordering;

use minver_rs::Version;

fn create_version(
    major: u32,
    minor: u32,
    patch: u32,
    prerelease: Option<String>,
    build_metadata: Option<String>,
) -> Version {
    Version {
        major,
        minor,
        patch,
        prerelease,
        build_metadata,
    }
}

#[test]
fn test_parse() {
    assert_eq!(
        create_version(1, 2, 3, None, None),
        Version::parse("1.2.3").unwrap()
    );
    assert_eq!(
        create_version(1, 2, 3, Some(String::from("alpha.1.1")), None),
        Version::parse("1.2.3-alpha.1.1").unwrap()
    );
    assert_eq!(
        create_version(1, 2, 3, None, Some(String::from("a1b2c3"))),
        Version::parse("1.2.3+a1b2c3").unwrap()
    );
    assert_eq!(
        create_version(
            1,
            2,
            3,
            Some(String::from("alpha.1.1")),
            Some(String::from("a1b2c3"))
        ),
        Version::parse("1.2.3-alpha.1.1+a1b2c3").unwrap()
    );

    assert!(Version::parse("v1.2.3").is_err())
}

#[test]
fn test_precedence_comparison() {
    let mut versions = vec![
        create_version(1, 4, 4, None, None),
        create_version(2, 2, 3, Some(String::from("beta")), None),
        create_version(1, 3, 5, None, None),
        create_version(2, 2, 3, None, None),
        create_version(1, 3, 6, None, None),
        create_version(2, 2, 3, Some(String::from("alpha")), None),
    ];
    let expected_versions = vec![
        create_version(1, 3, 5, None, None),
        create_version(1, 3, 6, None, None),
        create_version(1, 4, 4, None, None),
        create_version(2, 2, 3, Some(String::from("alpha")), None),
        create_version(2, 2, 3, Some(String::from("beta")), None),
        create_version(2, 2, 3, None, None),
    ];

    versions.sort_by(|v1, v2| v1.cmp_precedence(&v2));

    assert_eq!(versions, expected_versions);
}

#[test]
fn test_build_metadata_ignored_in_precedence_comparison() {
    let metadata1 = create_version(1, 2, 3, None, Some(String::from("a1b2c3")));
    let metadata2 = create_version(1, 2, 3, None, Some(String::from("d4e5f6")));
    let no_metadata = create_version(1, 2, 3, None, None);

    assert_eq!(Ordering::Equal, metadata1.cmp_precedence(&metadata2));
    assert_eq!(Ordering::Equal, metadata2.cmp_precedence(&no_metadata));
    assert_eq!(Ordering::Equal, no_metadata.cmp_precedence(&metadata1));
}

#[test]
fn test_prerelease_precedence_comparison() {
    let mut versions = vec![
        create_version(1, 0, 0, Some(String::from("beta.11")), None),
        create_version(1, 0, 0, Some(String::from("rc.1")), None),
        create_version(1, 0, 0, Some(String::from("alpha.1")), None),
        create_version(1, 0, 0, None, None),
        create_version(1, 0, 0, Some(String::from("beta.2")), None),
        create_version(1, 0, 0, Some(String::from("alpha.beta")), None),
        create_version(1, 0, 0, Some(String::from("alpha")), None),
        create_version(1, 0, 0, Some(String::from("beta")), None),
    ];
    let expected_versions = vec![
        create_version(1, 0, 0, Some(String::from("alpha")), None),
        create_version(1, 0, 0, Some(String::from("alpha.1")), None),
        create_version(1, 0, 0, Some(String::from("alpha.beta")), None),
        create_version(1, 0, 0, Some(String::from("beta")), None),
        create_version(1, 0, 0, Some(String::from("beta.2")), None),
        create_version(1, 0, 0, Some(String::from("beta.11")), None),
        create_version(1, 0, 0, Some(String::from("rc.1")), None),
        create_version(1, 0, 0, None, None),
    ];

    versions.sort_by(|v1, v2| v1.cmp_precedence(&v2));

    assert_eq!(versions, expected_versions);
}

#[test]
fn test_parse_render_roundtrip() {
    let texts = [
        "0.0.0",
        "1.2.3",
        "10.20.30",
        "1.2.3-alpha",
        "1.2.3-alpha.1.1",
        "1.0.0-x-y-z.0abc",
        "1.2.3+a1b2c3",
        "1.2.3-alpha.1.1+a1b2c3",
        "4294967295.0.0",
    ];
    for text in texts {
        let version = Version::parse(text).unwrap();
        assert_eq!(text, version.render());
    }
}

#[test]
fn test_parse_rejects_invalid_texts() {
    let texts = [
        "",
        "1",
        "1.2",
        "1.2.3.4",
        "01.2.3",
        "1.02.3",
        "1.2.03",
        "v1.2.3",
        "1.2.3-",
        "1.2.3+",
        "1.2.3-alpha..1",
        "1.2.3-01",
        "1.2.3+meta_data",
        "1.2.3 ",
        " 1.2.3",
        "1.2.3-bét",
        "4294967296.0.0",
    ];
    for text in texts {
        assert!(Version::parse(text).is_err(), "accepted: {}", text);
    }
}

#[test]
fn test_parse_accepts_prerelease_leading_zero_alphanumerics() {
    // "01a" has a letter, so it is alphanumeric and leading zeros are fine;
    // build metadata allows purely numeric identifiers with leading zeros.
    assert!(Version::parse("1.2.3-01a").is_ok());
    assert!(Version::parse("1.2.3+007").is_ok());
    assert!(Version::parse("1.2.3-0").is_ok());
}

#[test]
fn test_numeric_identifiers_compare_by_value() {
    let a = Version::parse("1.0.0-alpha.9").unwrap();
    let b = Version::parse("1.0.0-alpha.10").unwrap();
    assert_eq!(Ordering::Less, a.cmp_precedence(&b));
    // numeric identifiers are below alphanumeric ones
    let c = Version::parse("1.0.0-1").unwrap();
    let d = Version::parse("1.0.0-a").unwrap();
    assert_eq!(Ordering::Less, c.cmp_precedence(&d));
    // values larger than any machine word still compare numerically
    let e = Version::parse("1.0.0-alpha.18446744073709551617").unwrap();
    let f = Version::parse("1.0.0-alpha.18446744073709551616").unwrap();
    assert_eq!(Ordering::Greater, e.cmp_precedence(&f));
}

#[test]
fn test_cmp_prerelease_directly() {
    assert_eq!(Ordering::Less, Version::cmp_prerelease("alpha", "alpha.1"));
    assert_eq!(Ordering::Less, Version::cmp_prerelease("alpha.1", "alpha.beta"));
    assert_eq!(Ordering::Greater, Version::cmp_prerelease("rc.1", "beta.11"));
    assert_eq!(Ordering::Equal, Version::cmp_prerelease("beta.2", "beta.2"));
}

#[test]
fn test_default_version() {
    let version = Version::default("alpha");
    assert_eq!(
        create_version(0, 0, 0, Some(String::from("alpha.0")), None),
        version
    );
    assert_eq!("0.0.0-alpha.0", version.render());
}

#[test]
fn test_with_height() {
    let tagged = Version::parse("1.2.3-beta").unwrap();
    assert_eq!(
        create_version(1, 2, 3, Some(String::from("beta.7")), None),
        tagged.with_height(7, "alpha")
    );
    let plain = Version::parse("1.2.3").unwrap();
    assert_eq!(
        create_version(1, 2, 3, Some(String::from("alpha.7")), None),
        plain.with_height(7, "alpha")
    );
}

#[test]
fn test_without_metadata() {
    let version = Version::parse("1.2.3-rc.1+a1b2c3").unwrap();
    assert_eq!(
        create_version(1, 2, 3, Some(String::from("rc.1")), None),
        version.without_metadata()
    );
}

#[test]
fn test_with_appended_metadata() {
    let with = Version::parse("1.2.3+a1b2c3").unwrap();
    assert_eq!(
        create_version(1, 2, 3, None, Some(String::from("a1b2c3.d4e5f6"))),
        with.with_appended_metadata(&String::from("d4e5f6"))
    );
    let without = Version::parse("1.2.3").unwrap();
    assert_eq!(
        create_version(1, 2, 3, None, Some(String::from("d4e5f6"))),
        without.with_appended_metadata(&String::from("d4e5f6"))
    );
}

#[test]
fn test_with_incremented_level() {
    let version = Version::parse("1.2.3-beta+m").unwrap();
    let major = version.clone().with_incremented_level(&minver_rs::Level::Major);
    assert_eq!("2.0.0-beta+m", major.render());
    let minor = version.clone().with_incremented_level(&minver_rs::Level::Minor);
    assert_eq!("1.3.0-beta+m", minor.render());
    let patch = version.with_incremented_level(&minver_rs::Level::Patch);
    assert_eq!("1.2.4-beta+m", patch.render());
}
