//! Tag collection and current-version selection: which tags parse as
//! versions, which of them are in scope, and which one counts as the
//! current version.

use crate::order::{lemma_version_lt_asym, lemma_version_lt_connex, lemma_version_lt_trans,
    version_lt, version_lt_exec};
use crate::parse::{lemma_parse_format, parse_version, spec_parse};
use crate::text::bytes_eq;
use crate::version::{copy_bytes, copy_ids, wf_version, Scope, Version, VersionV};
use vstd::prelude::*;

verus! {

/// A tag as read from the repository: its name and the identifier of the
/// commit it (after peeling) points to.
pub struct RawTag {
    pub name: Vec<u8>,
    pub commit: Vec<u8>,
}

/// Model of a raw tag.
#[verifier::ext_equal]
pub ghost struct RawTagV {
    pub name: Seq<u8>,
    pub commit: Seq<u8>,
}

impl View for RawTag {
    type V = RawTagV;

    open spec fn view(&self) -> RawTagV {
        RawTagV { name: self.name@, commit: self.commit@ }
    }
}

impl DeepView for RawTag {
    type V = RawTagV;

    open spec fn deep_view(&self) -> RawTagV {
        self.view()
    }
}

/// A tag whose name parsed as a semantic version.
pub struct Tag {
    pub version: Version,
    pub commit: Vec<u8>,
}

/// Model of a parsed tag.
#[verifier::ext_equal]
pub ghost struct TagV {
    pub version: VersionV,
    pub commit: Seq<u8>,
}

impl View for Tag {
    type V = TagV;

    open spec fn view(&self) -> TagV {
        TagV { version: self.version@, commit: self.commit@ }
    }
}

impl DeepView for Tag {
    type V = TagV;

    open spec fn deep_view(&self) -> TagV {
        self.view()
    }
}

/// The tags whose names parse as versions, in order, paired with their
/// commits; names that do not parse are skipped silently.
pub open spec fn collect_spec(raw: Seq<RawTagV>) -> Seq<TagV>
    decreases raw.len(),
{
    if raw.len() == 0 {
        Seq::empty()
    } else {
        let rest = collect_spec(raw.drop_last());
        match spec_parse(raw.last().name) {
            Some(v) => rest.push(TagV { version: v, commit: raw.last().commit }),
            None => rest,
        }
    }
}

/// Every collected version is well-formed (it came out of the parser).
pub proof fn lemma_collect_wf(raw: Seq<RawTagV>)
    ensures
        forall|i: int|
            0 <= i < collect_spec(raw).len() ==> wf_version(#[trigger] collect_spec(raw)[i].version),
    decreases raw.len(),
{
    if raw.len() > 0 {
        lemma_collect_wf(raw.drop_last());
        let rest = collect_spec(raw.drop_last());
        if spec_parse(raw.last().name) is Some {
            lemma_parse_format(raw.last().name);
            assert forall|i: int| 0 <= i < collect_spec(raw).len() implies wf_version(
                #[trigger] collect_spec(raw)[i].version,
            ) by {
                if i < rest.len() {
                    assert(collect_spec(raw)[i] == rest[i]);
                } else {
                    assert(collect_spec(raw)[i].version == spec_parse(raw.last().name)->Some_0);
                }
            }
        }
    }
}

/// Parse every tag name, keeping the tags that are semantic versions.
#[verifier::loop_isolation(false)]
pub fn collect_tags(raw: &Vec<RawTag>) -> (r: Vec<Tag>)
    ensures
        r.deep_view() == collect_spec(raw.deep_view()),
{
    let ghost rv = raw.deep_view();
    let mut out: Vec<Tag> = Vec::new();
    let mut i: usize = 0;
    proof {
        assert(rv.take(0) =~= Seq::<RawTagV>::empty());
    }
    while i < raw.len()
        invariant
            i <= rv.len(),
            out.deep_view() == collect_spec(rv.take(i as int)),
        decreases rv.len() - i,
    {
        let t = &raw[i];
        proof {
            assert(rv.take(i + 1).drop_last() =~= rv.take(i as int));
            assert(rv.take(i + 1).last() == rv[i as int]);
            assert(rv[i as int] == raw@[i as int]@);
        }
        match parse_version(t.name.as_slice()) {
            Some(v) => {
                let commit = copy_bytes(&t.commit);
                out.push(Tag { version: v, commit });
                proof {
                    assert(out.deep_view() =~~= collect_spec(rv.take(i + 1)));
                }
            },
            None => {
                proof {
                    assert(out.deep_view() =~~= collect_spec(rv.take(i + 1)));
                }
            },
        }
        i = i + 1;
    }
    proof {
        assert(rv.take(rv.len() as int) =~= rv);
    }
    out
}

/// The versions eligible as the current version: all parsed tags under
/// `Global` scope; only those whose tag points at `head` under `Local`.
pub open spec fn candidates(tags: Seq<TagV>, scope: Scope, head: Seq<u8>) -> Seq<VersionV>
    decreases tags.len(),
{
    if tags.len() == 0 {
        Seq::empty()
    } else {
        let rest = candidates(tags.drop_last(), scope, head);
        if scope is Global || tags.last().commit == head {
            rest.push(tags.last().version)
        } else {
            rest
        }
    }
}

/// The maximum of a non-empty version sequence in semantic-versioning
/// precedence; among versions that tie in precedence, the later one.
pub open spec fn max_from(s: Seq<VersionV>) -> VersionV
    recommends
        s.len() > 0,
    decreases s.len(),
{
    if s.len() <= 1 {
        s[0]
    } else {
        let m = max_from(s.drop_last());
        if version_lt(s.last(), m) {
            m
        } else {
            s.last()
        }
    }
}

/// The current version under the requested scope: the maximum eligible
/// version, or `None` when no tag in scope parsed as a version.
pub open spec fn select_spec(tags: Seq<TagV>, scope: Scope, head: Seq<u8>) -> Option<VersionV> {
    let c = candidates(tags, scope, head);
    if c.len() == 0 {
        None
    } else {
        Some(max_from(c))
    }
}

/// The chosen maximum is one of the sequence's versions.
pub proof fn lemma_max_from_member(s: Seq<VersionV>)
    requires
        s.len() > 0,
    ensures
        exists|i: int| 0 <= i < s.len() && max_from(s) == s[i],
    decreases s.len(),
{
    if s.len() == 1 {
        assert(max_from(s) == s[0]);
    } else {
        lemma_max_from_member(s.drop_last());
        if version_lt(s.last(), max_from(s.drop_last())) {
            let j = choose|i: int|
                0 <= i < s.drop_last().len() && max_from(s.drop_last()) == s.drop_last()[i];
            assert(s.drop_last()[j] == s[j]);
            assert(max_from(s) == s[j]);
        } else {
            assert(max_from(s) == s[s.len() - 1]);
        }
    }
}

/// The chosen maximum is not below any version in the sequence.
pub proof fn lemma_max_from_upper(s: Seq<VersionV>)
    requires
        s.len() > 0,
        forall|i: int| 0 <= i < s.len() ==> wf_version(#[trigger] s[i]),
    ensures
        forall|i: int| 0 <= i < s.len() ==> !version_lt(max_from(s), #[trigger] s[i]),
    decreases s.len(),
{
    if s.len() == 1 {
        lemma_version_lt_asym(s[0], s[0]);
    } else {
        let p = s.drop_last();
        assert forall|i: int| 0 <= i < p.len() implies wf_version(#[trigger] p[i]) by {
            assert(p[i] == s[i]);
        }
        lemma_max_from_upper(p);
        lemma_max_from_member(p);
        let m = max_from(p);
        let jm = choose|i: int| 0 <= i < p.len() && m == p[i];
        assert(wf_version(m));
        let last = s.last();
        assert(wf_version(last));
        if version_lt(last, m) {
            assert(max_from(s) == m);
            assert forall|i: int| 0 <= i < s.len() implies !version_lt(max_from(s), #[trigger] s[i]) by {
                if i < s.len() - 1 {
                    assert(s[i] == p[i]);
                } else {
                    lemma_version_lt_asym(last, m);
                }
            }
        } else {
            assert(max_from(s) == last);
            assert forall|i: int| 0 <= i < s.len() implies !version_lt(max_from(s), #[trigger] s[i]) by {
                if i < s.len() - 1 {
                    assert(s[i] == p[i]);
                    assert(!version_lt(m, s[i]));
                    if version_lt(last, s[i]) {
                        if version_lt(m, last) {
                            lemma_version_lt_trans(m, last, s[i]);
                        } else {
                            lemma_version_lt_connex(last, m);
                            assert(version_lt(m, s[i]));
                        }
                    }
                } else {
                    lemma_version_lt_asym(last, last);
                }
            }
        }
    }
}

/// Every candidate version belongs to some tag in the list.
pub proof fn lemma_candidates_members(tags: Seq<TagV>, scope: Scope, head: Seq<u8>)
    ensures
        forall|j: int|
            0 <= j < candidates(tags, scope, head).len() ==> exists|i: int|
                0 <= i < tags.len() && #[trigger] candidates(tags, scope, head)[j] == tags[i].version,
    decreases tags.len(),
{
    if tags.len() > 0 {
        let p = tags.drop_last();
        lemma_candidates_members(p, scope, head);
        let c = candidates(tags, scope, head);
        let cp = candidates(p, scope, head);
        assert forall|j: int| 0 <= j < c.len() implies exists|i: int|
            0 <= i < tags.len() && #[trigger] c[j] == tags[i].version by {
            if scope is Global || tags.last().commit == head {
                if j < cp.len() {
                    assert(c[j] == cp[j]);
                    let i0 = choose|i: int| 0 <= i < p.len() && cp[j] == p[i].version;
                    assert(p[i0] == tags[i0]);
                    assert(c[j] == tags[i0].version);
                } else {
                    assert(c[j] == tags.last().version);
                    assert(c[j] == tags[tags.len() - 1].version);
                }
            } else {
                assert(c[j] == cp[j]);
                let i0 = choose|i: int| 0 <= i < p.len() && cp[j] == p[i].version;
                assert(p[i0] == tags[i0]);
                assert(c[j] == tags[i0].version);
            }
        }
    }
}

/// Every candidate version is well-formed when every tag's version is.
pub proof fn lemma_candidates_wf(tags: Seq<TagV>, scope: Scope, head: Seq<u8>)
    requires
        forall|i: int| 0 <= i < tags.len() ==> wf_version(#[trigger] tags[i].version),
    ensures
        forall|j: int|
            0 <= j < candidates(tags, scope, head).len() ==> wf_version(
                #[trigger] candidates(tags, scope, head)[j],
            ),
{
    lemma_candidates_members(tags, scope, head);
    assert forall|j: int| 0 <= j < candidates(tags, scope, head).len() implies wf_version(
        #[trigger] candidates(tags, scope, head)[j],
    ) by {
        let i0 = choose|i: int|
            0 <= i < tags.len() && candidates(tags, scope, head)[j] == tags[i].version;
        assert(wf_version(tags[i0].version));
    }
}

/// Selection is a function of the tag set alone: two selections from the
/// same unchanged tag set, scope and head yield the same version.
pub proof fn lemma_select_deterministic(
    tags: Seq<TagV>,
    scope: Scope,
    head: Seq<u8>,
    r1: Option<VersionV>,
    r2: Option<VersionV>,
)
    requires
        r1 == select_spec(tags, scope, head),
        r2 == select_spec(tags, scope, head),
    ensures
        r1 == r2,
{
}

/// Global selection is monotonic: adding a tag whose version is above
/// every existing tag's version makes it the selected version.
pub proof fn lemma_select_monotonic(tags: Seq<TagV>, head: Seq<u8>, t: TagV)
    requires
        forall|i: int| 0 <= i < tags.len() ==> version_lt(#[trigger] tags[i].version, t.version),
    ensures
        select_spec(tags.push(t), Scope::Global, head) == Some(t.version),
{
    let ext = tags.push(t);
    assert(ext.drop_last() =~= tags);
    assert(ext.last() == t);
    let c = candidates(tags, Scope::Global, head);
    assert(candidates(ext, Scope::Global, head) == c.push(t.version));
    if c.len() == 0 {
        assert(c.push(t.version)[0] == t.version);
        assert(max_from(c.push(t.version)) == t.version);
    } else {
        assert(c.push(t.version).drop_last() =~= c);
        assert(c.push(t.version).last() == t.version);
        lemma_candidates_members(tags, Scope::Global, head);
        lemma_max_from_member(c);
        let m = max_from(c);
        let j = choose|i: int| 0 <= i < c.len() && m == c[i];
        let i0 = choose|i: int| 0 <= i < tags.len() && c[j] == tags[i].version;
        assert(version_lt(m, t.version));
        lemma_version_lt_asym(t.version, m);
        assert(max_from(c.push(t.version)) == t.version);
    }
}

/// The selected current version is a maximum: it is one of the candidate
/// versions in scope and no candidate exceeds it.
pub proof fn lemma_select_is_maximum(tags: Seq<TagV>, scope: Scope, head: Seq<u8>)
    requires
        forall|i: int| 0 <= i < tags.len() ==> wf_version(#[trigger] tags[i].version),
        select_spec(tags, scope, head) is Some,
    ensures
        ({
            let sel = select_spec(tags, scope, head)->Some_0;
            let c = candidates(tags, scope, head);
            &&& exists|j: int| 0 <= j < c.len() && sel == c[j]
            &&& forall|j: int| 0 <= j < c.len() ==> !version_lt(sel, #[trigger] c[j])
        }),
{
    let c = candidates(tags, scope, head);
    lemma_candidates_wf(tags, scope, head);
    lemma_max_from_member(c);
    lemma_max_from_upper(c);
}

/// Copy of a version.
pub fn copy_version(v: &Version) -> (r: Version)
    ensures
        r@ == v@,
{
    let r = Version {
        major: v.major,
        minor: v.minor,
        patch: v.patch,
        pre: copy_ids(&v.pre),
        build: copy_bytes(&v.build),
    };
    proof {
        assert(r@ =~= v@);
    }
    r
}

/// Select the current version under the requested scope: the maximum
/// eligible version in semantic-versioning precedence, or `None` when no
/// tag in scope parsed as a version.
#[verifier::loop_isolation(false)]
pub fn select_current(tags: &Vec<Tag>, scope: Scope, head: &Vec<u8>) -> (r: Option<Version>)
    requires
        forall|i: int|
            0 <= i < tags.deep_view().len() ==> wf_version(
                #[trigger] tags.deep_view()[i].version,
            ),
    ensures
        match r {
            Some(v) => select_spec(tags.deep_view(), scope, head@) == Some(v@) && v.wf(),
            None => select_spec(tags.deep_view(), scope, head@) is None,
        },
{
    let ghost tv = tags.deep_view();
    let mut best: Option<Version> = None;
    let mut i: usize = 0;
    proof {
        assert(tv.take(0) =~= Seq::<TagV>::empty());
    }
    while i < tags.len()
        invariant
            i <= tv.len(),
            match best {
                Some(b) => candidates(tv.take(i as int), scope, head@).len() > 0 && b@ == max_from(
                    candidates(tv.take(i as int), scope, head@),
                ) && b.wf(),
                None => candidates(tv.take(i as int), scope, head@).len() == 0,
            },
        decreases tv.len() - i,
    {
        let t = &tags[i];
        proof {
            assert(tv[i as int] == tags@[i as int]@);
            assert(tv.take(i + 1).drop_last() =~= tv.take(i as int));
            assert(tv.take(i + 1).last() == tv[i as int]);
        }
        let eligible = match scope {
            Scope::Global => true,
            Scope::Local => bytes_eq(t.commit.as_slice(), head.as_slice()),
        };
        proof {
            assert(eligible == (scope is Global || tv[i as int].commit == head@));
        }
        proof {
            assert(wf_version(tv[i as int].version));
        }
        if eligible {
            let replace = match &best {
                None => true,
                Some(b) => !version_lt_exec(&t.version, b),
            };
            if replace {
                best = Some(copy_version(&t.version));
            }
        }
        proof {
            let c = candidates(tv.take(i as int), scope, head@);
            let c1 = candidates(tv.take(i + 1), scope, head@);
            if eligible {
                assert(c1 == c.push(tv[i as int].version));
                if c.len() == 0 {
                    assert(c1.len() == 1);
                    assert(c1[0] == tv[i as int].version);
                    assert(max_from(c1) == tv[i as int].version);
                } else {
                    assert(c1.drop_last() =~= c);
                    assert(c1.last() == tv[i as int].version);
                }
            } else {
                assert(c1 == c);
            }
        }
        i = i + 1;
    }
    proof {
        assert(tv.take(tv.len() as int) =~= tv);
    }
    best
}

} // verus!
