use vergit::parse::parse_version;
use vergit::select::{collect_tags, select_current, RawTag, Tag};
use vergit::version::{Scope, Version};

fn pv(s: &str) -> Version {
    parse_version(s.as_bytes()).expect("expected a valid version")
}

fn tag(version: &str, commit: &str) -> Tag {
    Tag {
        version: pv(version),
        commit: commit.as_bytes().to_vec(),
    }
}

fn raw(name: &str, commit: &str) -> RawTag {
    RawTag {
        name: name.as_bytes().to_vec(),
        commit: commit.as_bytes().to_vec(),
    }
}

fn selected(tags: &Vec<Tag>, scope: Scope, head: &str) -> Option<String> {
    select_current(tags, scope, &head.as_bytes().to_vec()).map(|v| v.to_version_string())
}

#[test]
fn local_two_tags_on_head_takes_semantic_maximum() {
    let tags = vec![tag("0.0.9", "c1"), tag("0.0.10", "c1")];
    assert_eq!(selected(&tags, Scope::Local, "c1"), Some("0.0.10".into()));
}

#[test]
fn local_two_tags_on_head_order_does_not_matter() {
    let tags = vec![tag("0.0.10", "c1"), tag("0.0.9", "c1")];
    assert_eq!(selected(&tags, Scope::Local, "c1"), Some("0.0.10".into()));
}

#[test]
fn local_ignores_tags_on_other_commits() {
    let tags = vec![tag("5.0.0", "c2"), tag("0.1.0", "c1")];
    assert_eq!(selected(&tags, Scope::Local, "c1"), Some("0.1.0".into()));
}

#[test]
fn local_none_when_no_tag_on_head() {
    let tags = vec![tag("5.0.0", "c2")];
    assert_eq!(selected(&tags, Scope::Local, "c1"), None);
}

#[test]
fn global_takes_maximum_over_all_commits() {
    let tags = vec![tag("0.0.1-beta.3", "c1"), tag("0.3.4", "c2"), tag("1.8.5", "c3")];
    assert_eq!(selected(&tags, Scope::Global, "c1"), Some("1.8.5".into()));
}

#[test]
fn global_none_when_empty() {
    let tags: Vec<Tag> = Vec::new();
    assert_eq!(selected(&tags, Scope::Global, "c1"), None);
}

#[test]
fn selection_idempotent_on_unchanged_tags() {
    let tags = vec![tag("0.0.9", "c1"), tag("1.2.3-rc.1", "c2"), tag("0.0.10", "c1")];
    let first = selected(&tags, Scope::Global, "c1");
    let second = selected(&tags, Scope::Global, "c1");
    assert_eq!(first, second);
    let first_local = selected(&tags, Scope::Local, "c1");
    let second_local = selected(&tags, Scope::Local, "c1");
    assert_eq!(first_local, second_local);
}

#[test]
fn global_selection_monotonic_under_new_highest_tag() {
    let mut tags = vec![tag("0.3.4", "c1"), tag("1.8.5", "c2")];
    assert_eq!(selected(&tags, Scope::Global, "c1"), Some("1.8.5".into()));
    tags.push(tag("2.0.0", "c9"));
    assert_eq!(selected(&tags, Scope::Global, "c1"), Some("2.0.0".into()));
}

#[test]
fn prerelease_ranks_below_release_in_selection() {
    let tags = vec![tag("1.0.0-rc.1", "c1"), tag("1.0.0", "c1")];
    assert_eq!(selected(&tags, Scope::Local, "c1"), Some("1.0.0".into()));
}

#[test]
fn collect_skips_names_that_do_not_parse() {
    let raws = vec![
        raw("hello-world", "c1"),
        raw("0.3.4", "c2"),
        raw("not.a.version.at.all", "c3"),
        raw("1.8.5", "c4"),
    ];
    let tags = collect_tags(&raws);
    assert_eq!(tags.len(), 2);
    assert_eq!(tags[0].version.to_version_string(), "0.3.4");
    assert_eq!(tags[0].commit, b"c2".to_vec());
    assert_eq!(tags[1].version.to_version_string(), "1.8.5");
    assert_eq!(tags[1].commit, b"c4".to_vec());
}

#[test]
fn collect_keeps_prerelease_tags() {
    let raws = vec![raw("0.0.1-beta.3", "c1")];
    let tags = collect_tags(&raws);
    assert_eq!(tags.len(), 1);
    assert_eq!(tags[0].version.to_version_string(), "0.0.1-beta.3");
}

#[test]
fn precedence_tie_selects_later_tag() {
    let a = vec![tag("1.0.0+a", "c1"), tag("1.0.0+b", "c1")];
    assert_eq!(selected(&a, Scope::Local, "c1"), Some("1.0.0+b".into()));
    let b = vec![tag("1.0.0+b", "c1"), tag("1.0.0+a", "c1")];
    assert_eq!(selected(&b, Scope::Local, "c1"), Some("1.0.0+a".into()));
}
