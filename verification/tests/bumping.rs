use vergit::bump::{bump, default_component, next_version, resolve_next_version};
use vergit::parse::parse_version;
use vergit::select::{RawTag, Tag};
use vergit::version::{Component, Scope, Version, VersionError};

fn pv(s: &str) -> Version {
    parse_version(s.as_bytes()).expect("expected a valid version")
}

fn bumped(s: &str, c: Component) -> Result<String, VersionError> {
    bump(&pv(s), c).map(|v| v.to_version_string())
}

fn raw(name: &str, commit: &str) -> RawTag {
    RawTag {
        name: name.as_bytes().to_vec(),
        commit: commit.as_bytes().to_vec(),
    }
}

fn resolve(
    tags: &[(&str, &str)],
    scope: Scope,
    head: &str,
    component: Option<Component>,
) -> Result<String, VersionError> {
    let raws: Vec<RawTag> = tags.iter().map(|(n, c)| raw(n, c)).collect();
    resolve_next_version(&raws, scope, &head.as_bytes().to_vec(), component)
        .expect("bump within u64 range")
        .map(|v| v.to_version_string())
}

#[test]
fn bump_major_resets_everything() {
    assert_eq!(bumped("1.2.3-beta.1+b5", Component::Major), Ok("2.0.0".into()));
}

#[test]
fn bump_minor_resets_patch() {
    assert_eq!(bumped("1.8.5", Component::Minor), Ok("1.9.0".into()));
}

#[test]
fn bump_patch_clears_prerelease() {
    assert_eq!(bumped("1.2.3-beta.1", Component::Patch), Ok("1.2.4".into()));
}

#[test]
fn bump_patch_plain() {
    assert_eq!(bumped("0.0.1", Component::Patch), Ok("0.0.2".into()));
}

#[test]
fn bump_prerelease_increments_tail() {
    assert_eq!(
        bumped("0.0.1-beta.1", Component::Prerelease),
        Ok("0.0.1-beta.2".into())
    );
}

#[test]
fn bump_prerelease_alpha_tail_number() {
    assert_eq!(
        bumped("0.0.1-alpha.3", Component::Prerelease),
        Ok("0.0.1-alpha.4".into())
    );
}

#[test]
fn bump_prerelease_multi_segment() {
    assert_eq!(
        bumped("0.0.1-test.b.2", Component::Prerelease),
        Ok("0.0.1-test.b.3".into())
    );
}

#[test]
fn bump_prerelease_single_numeric_identifier() {
    assert_eq!(bumped("0.0.1-5", Component::Prerelease), Ok("0.0.1-6".into()));
}

#[test]
fn bump_prerelease_keeps_build() {
    assert_eq!(
        bumped("1.2.3-rc.1+abc", Component::Prerelease),
        Ok("1.2.3-rc.2+abc".into())
    );
}

#[test]
fn bump_prerelease_without_prerelease_fails() {
    assert_eq!(
        bumped("0.0.1", Component::Prerelease),
        Err(VersionError::MissingPrerelease)
    );
}

#[test]
fn bump_prerelease_non_numeric_tail_fails() {
    assert_eq!(
        bumped("0.0.1-beta", Component::Prerelease),
        Err(VersionError::NonNumericPrereleaseTail(b"beta".to_vec()))
    );
}

#[test]
fn bump_prerelease_alphanumeric_tail_fails() {
    assert_eq!(
        bumped("0.0.1-alpha1", Component::Prerelease),
        Err(VersionError::NonNumericPrereleaseTail(b"alpha1".to_vec()))
    );
}

#[test]
fn bump_prerelease_trailing_alpha_segment_fails() {
    assert_eq!(
        bumped("0.0.1-beta.1.a", Component::Prerelease),
        Err(VersionError::NonNumericPrereleaseTail(b"a".to_vec()))
    );
}

#[test]
fn bump_prerelease_tail_beyond_u64_fails() {
    assert_eq!(
        bumped("1.0.0-99999999999999999999999999", Component::Prerelease),
        Err(VersionError::NonNumericPrereleaseTail(
            b"99999999999999999999999999".to_vec()
        ))
    );
}

#[test]
fn default_component_is_patch_without_prerelease() {
    assert_eq!(default_component(&pv("1.2.3")), Component::Patch);
    assert_eq!(Component::default(), Component::Patch);
}

#[test]
fn default_component_is_prerelease_with_prerelease() {
    assert_eq!(default_component(&pv("1.2.3-beta.1")), Component::Prerelease);
}

#[test]
fn scenario_single_tag_default_bump() {
    assert_eq!(
        resolve(&[("0.0.1", "c1")], Scope::Local, "c1", None),
        Ok("0.0.2".into())
    );
}

#[test]
fn scenario_prerelease_tag_default_bump() {
    assert_eq!(
        resolve(&[("0.0.1-beta.1", "c1")], Scope::Local, "c1", None),
        Ok("0.0.1-beta.2".into())
    );
}

#[test]
fn scenario_non_numeric_tail_aborts() {
    assert_eq!(
        resolve(
            &[("0.0.1-beta", "c1")],
            Scope::Local,
            "c1",
            Some(Component::Prerelease)
        ),
        Err(VersionError::NonNumericPrereleaseTail(b"beta".to_vec()))
    );
}

#[test]
fn scenario_global_minor_ignores_non_version_tag() {
    assert_eq!(
        resolve(
            &[
                ("hello-world", "c1"),
                ("0.0.1-beta.3", "c2"),
                ("0.3.4", "c3"),
                ("1.8.5", "c4"),
            ],
            Scope::Global,
            "c1",
            Some(Component::Minor)
        ),
        Ok("1.9.0".into())
    );
}

#[test]
fn scenario_no_version_tags_fails() {
    assert_eq!(
        resolve(&[("hello-world", "c1")], Scope::Global, "c1", None),
        Err(VersionError::NoCandidateVersion)
    );
}

#[test]
fn scenario_local_regression_two_tags_one_commit() {
    assert_eq!(
        resolve(
            &[("0.0.9", "c1"), ("0.0.10", "c1")],
            Scope::Local,
            "c1",
            Some(Component::Patch)
        ),
        Ok("0.0.11".into())
    );
}

#[test]
fn resolve_overflow_is_reported_as_out_of_range() {
    let raws = vec![raw("18446744073709551615.0.0", "c1")];
    let r = resolve_next_version(
        &raws,
        Scope::Global,
        &b"c1".to_vec(),
        Some(Component::Major),
    );
    assert!(r.is_none());
}

#[test]
fn format_bytes_matches_string_form() {
    let v = pv("1.9.0");
    assert_eq!(vergit::fmt::format_version(&v), b"1.9.0".to_vec());
    assert_eq!(v.to_version_string(), "1.9.0");
}

#[test]
fn next_version_on_parsed_tags() {
    let tags = vec![
        Tag {
            version: pv("0.0.9"),
            commit: b"c1".to_vec(),
        },
        Tag {
            version: pv("0.0.10"),
            commit: b"c1".to_vec(),
        },
    ];
    let r = next_version(&tags, Scope::Local, &b"c1".to_vec(), None);
    assert_eq!(r.map(|v| v.to_version_string()), Ok("0.0.11".to_string()));
}
