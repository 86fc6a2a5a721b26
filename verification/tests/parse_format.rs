use vergit::parse::parse_version;
use vergit::version::Version;

fn pv(s: &str) -> Version {
    parse_version(s.as_bytes()).expect("expected a valid version")
}

fn roundtrip(s: &str) -> String {
    pv(s).to_version_string()
}

#[test]
fn roundtrip_basic() {
    assert_eq!(roundtrip("1.9.0"), "1.9.0");
}

#[test]
fn roundtrip_zero() {
    assert_eq!(roundtrip("0.0.0"), "0.0.0");
}

#[test]
fn roundtrip_prerelease() {
    assert_eq!(roundtrip("0.0.1-beta.2"), "0.0.1-beta.2");
}

#[test]
fn roundtrip_build() {
    assert_eq!(roundtrip("1.2.3+build.01"), "1.2.3+build.01");
}

#[test]
fn roundtrip_prerelease_and_build() {
    assert_eq!(
        roundtrip("1.2.3-alpha.1+exp.sha-5114f85"),
        "1.2.3-alpha.1+exp.sha-5114f85"
    );
}

#[test]
fn roundtrip_u64_max_component() {
    assert_eq!(
        roundtrip("18446744073709551615.0.0"),
        "18446744073709551615.0.0"
    );
}

#[test]
fn roundtrip_huge_numeric_prerelease() {
    assert_eq!(
        roundtrip("1.0.0-99999999999999999999999999"),
        "1.0.0-99999999999999999999999999"
    );
}

#[test]
fn parse_fields() {
    let v = pv("1.2.3-beta.1+bld");
    assert_eq!(v.major, 1);
    assert_eq!(v.minor, 2);
    assert_eq!(v.patch, 3);
    assert_eq!(v.pre, vec![b"beta".to_vec(), b"1".to_vec()]);
    assert_eq!(v.build, b"bld".to_vec());
}

#[test]
fn parse_no_prerelease_no_build() {
    let v = pv("10.20.30");
    assert_eq!(v.major, 10);
    assert_eq!(v.minor, 20);
    assert_eq!(v.patch, 30);
    assert!(v.pre.is_empty());
    assert!(v.build.is_empty());
}

#[test]
fn reject_plain_words() {
    assert!(parse_version(b"hello-world").is_none());
}

#[test]
fn reject_two_components() {
    assert!(parse_version(b"1.2").is_none());
}

#[test]
fn reject_four_components() {
    assert!(parse_version(b"1.2.3.4").is_none());
}

#[test]
fn reject_leading_zero_major() {
    assert!(parse_version(b"01.2.3").is_none());
}

#[test]
fn reject_leading_zero_minor() {
    assert!(parse_version(b"1.02.3").is_none());
}

#[test]
fn reject_empty_prerelease() {
    assert!(parse_version(b"1.2.3-").is_none());
}

#[test]
fn reject_empty_prerelease_segment() {
    assert!(parse_version(b"1.2.3-beta..1").is_none());
}

#[test]
fn reject_leading_zero_numeric_prerelease() {
    assert!(parse_version(b"1.2.3-01").is_none());
}

#[test]
fn reject_empty_build() {
    assert!(parse_version(b"1.2.3+").is_none());
}

#[test]
fn reject_empty_string() {
    assert!(parse_version(b"").is_none());
}

#[test]
fn reject_leading_v() {
    assert!(parse_version(b"v1.2.3").is_none());
}

#[test]
fn reject_whitespace() {
    assert!(parse_version(b"1.2.3 ").is_none());
}

#[test]
fn reject_overflowing_component() {
    assert!(parse_version(b"18446744073709551616.0.0").is_none());
}

#[test]
fn reject_non_ascii() {
    assert!(parse_version("1.2.3-é".as_bytes()).is_none());
}

#[test]
fn cross_check_semver_crate() {
    let cases = [
        "1.9.0",
        "0.0.0",
        "0.0.1-beta.2",
        "1.2.3+build.01",
        "1.2.3-alpha.1+exp.sha-5114f85",
        "18446744073709551615.0.0",
        "1.0.0-99999999999999999999999999",
        "hello-world",
        "1.2",
        "1.2.3.4",
        "01.2.3",
        "1.2.3-",
        "1.2.3-beta..1",
        "1.2.3-01",
        "1.2.3+",
        "",
        "v1.2.3",
        "1.2.3 ",
        "18446744073709551616.0.0",
        "1.0.0-alpha-dashed.x-y",
        "0.0.1-test.b.2",
    ];
    for s in cases {
        let mine = parse_version(s.as_bytes());
        let theirs = semver::Version::parse(s);
        assert_eq!(
            mine.is_some(),
            theirs.is_ok(),
            "disagreement on whether {:?} parses",
            s
        );
        if let (Some(m), Ok(t)) = (mine, theirs) {
            assert_eq!(m.to_version_string(), t.to_string(), "format of {:?}", s);
        }
    }
}
