use vergit::order::version_lt_exec;
use vergit::parse::parse_version;
use vergit::version::Version;

fn pv(s: &str) -> Version {
    parse_version(s.as_bytes()).expect("expected a valid version")
}

fn lt(a: &str, b: &str) -> bool {
    version_lt_exec(&pv(a), &pv(b))
}

#[test]
fn ord_numeric_not_ascii() {
    assert!(lt("0.0.9", "0.0.10"));
    assert!(!lt("0.0.10", "0.0.9"));
}

#[test]
fn ord_major_minor_patch() {
    assert!(lt("0.3.4", "1.8.5"));
    assert!(lt("1.8.5", "1.9.0"));
    assert!(lt("1.9.0", "1.9.1"));
}

#[test]
fn ord_prerelease_below_release() {
    assert!(lt("1.0.0-alpha", "1.0.0"));
    assert!(!lt("1.0.0", "1.0.0-alpha"));
}

#[test]
fn ord_semver_precedence_chain() {
    let chain = [
        "1.0.0-alpha",
        "1.0.0-alpha.1",
        "1.0.0-alpha.beta",
        "1.0.0-beta",
        "1.0.0-beta.2",
        "1.0.0-beta.11",
        "1.0.0-rc.1",
        "1.0.0",
    ];
    for w in chain.windows(2) {
        assert!(lt(w[0], w[1]), "{} should precede {}", w[0], w[1]);
        assert!(!lt(w[1], w[0]), "{} should not precede {}", w[1], w[0]);
    }
}

#[test]
fn ord_numeric_id_below_alphanumeric() {
    assert!(lt("1.0.0-1", "1.0.0-a"));
    assert!(!lt("1.0.0-a", "1.0.0-1"));
}

#[test]
fn ord_huge_numeric_prerelease() {
    assert!(lt(
        "1.0.0-99999999999999999999999998",
        "1.0.0-99999999999999999999999999"
    ));
}

#[test]
fn ord_build_is_ignored() {
    assert!(!lt("1.0.0+a", "1.0.0+b"));
    assert!(!lt("1.0.0+b", "1.0.0+a"));
}

#[test]
fn ord_equal_versions_not_less() {
    assert!(!lt("1.2.3-rc.1", "1.2.3-rc.1"));
}

#[test]
fn cross_check_semver_crate_order() {
    let vs = [
        "0.0.9",
        "0.0.10",
        "0.3.4",
        "1.8.5",
        "1.0.0-alpha",
        "1.0.0-alpha.1",
        "1.0.0-alpha.beta",
        "1.0.0-beta.2",
        "1.0.0-beta.11",
        "1.0.0-rc.1",
        "1.0.0",
        "1.0.0+build",
        "0.0.1-test.b.2",
    ];
    for a in vs {
        for b in vs {
            let mine = lt(a, b);
            // Precedence comparison: semantic-versioning order ignores build
            // metadata, which is what `cmp_precedence` implements.
            let theirs = semver::Version::parse(a)
                .unwrap()
                .cmp_precedence(&semver::Version::parse(b).unwrap())
                == std::cmp::Ordering::Less;
            assert_eq!(mine, theirs, "ordering of {:?} and {:?}", a, b);
        }
    }
}
