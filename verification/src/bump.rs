//! Component bumping: computing the next version from the current one, and
//! the whole resolve-and-bump run over a tag list.

use crate::num::{
    all_digits, all_digits_exec, dec_of, dec_val, is_digit, lemma_dec_of_canonical, parse_u64,
    u64_to_dec,
};
use crate::select::{
    candidates, collect_spec, collect_tags, lemma_candidates_members, lemma_collect_wf,
    lemma_max_from_member, select_current, select_spec, RawTag, Tag, TagV,
};
use crate::version::{
    copy_bytes, copy_ids, is_ident_byte, valid_prerelease_id, wf_version, Component, Scope,
    Version, VersionError, VersionErrorV, VersionV,
};
use vstd::prelude::*;

verus! {

/// Whether the version's last prerelease identifier is a number that a
/// `u64` can hold.
pub open spec fn pre_tail_numeric(v: VersionV) -> bool {
    v.pre.len() > 0 && all_digits(v.pre.last()) && dec_val(v.pre.last()) <= u64::MAX
}

/// The version after a prerelease bump: the last identifier, a number, is
/// replaced by that number plus one; everything else is unchanged.
pub open spec fn bump_pre_spec(v: VersionV) -> VersionV {
    VersionV {
        major: v.major,
        minor: v.minor,
        patch: v.patch,
        pre: v.pre.update(v.pre.len() - 1, dec_of(dec_val(v.pre.last()) + 1)),
        build: v.build,
    }
}

/// What bumping `c` on `v` yields: the next version, or the error the
/// request runs into.  Major, minor and patch bumps reset the lower
/// numeric components and clear prerelease and build; a prerelease bump
/// requires a prerelease whose last identifier is a plain number.
pub open spec fn bump_spec(v: VersionV, c: Component) -> Result<VersionV, VersionErrorV> {
    match c {
        Component::Major => Ok(
            VersionV {
                major: v.major + 1,
                minor: 0,
                patch: 0,
                pre: Seq::empty(),
                build: Seq::empty(),
            },
        ),
        Component::Minor => Ok(
            VersionV {
                major: v.major,
                minor: v.minor + 1,
                patch: 0,
                pre: Seq::empty(),
                build: Seq::empty(),
            },
        ),
        Component::Patch => Ok(
            VersionV {
                major: v.major,
                minor: v.minor,
                patch: v.patch + 1,
                pre: Seq::empty(),
                build: Seq::empty(),
            },
        ),
        Component::Prerelease => {
            if v.pre.len() == 0 {
                Err(VersionErrorV::MissingPrerelease)
            } else if !(all_digits(v.pre.last()) && dec_val(v.pre.last()) <= u64::MAX) {
                Err(VersionErrorV::NonNumericPrereleaseTail(v.pre.last()))
            } else {
                Ok(bump_pre_spec(v))
            }
        },
    }
}

/// The bump arithmetic stays within a `u64` for this version and
/// component.
pub open spec fn bump_in_range(v: VersionV, c: Component) -> bool {
    match c {
        Component::Major => v.major < u64::MAX,
        Component::Minor => v.minor < u64::MAX,
        Component::Patch => v.patch < u64::MAX,
        Component::Prerelease => pre_tail_numeric(v) ==> dec_val(v.pre.last()) < u64::MAX,
    }
}

/// The result of a bump, seen as models.
pub open spec fn bump_result_view(r: Result<Version, VersionError>) -> Result<
    VersionV,
    VersionErrorV,
> {
    match r {
        Ok(v) => Ok(v@),
        Err(e) => Err(e@),
    }
}

/// A major bump yields a version with an empty prerelease whose minor and
/// patch components are zero (and whose major is one higher).
pub proof fn lemma_bump_major(v: VersionV)
    ensures
        bump_spec(v, Component::Major) is Ok,
        bump_spec(v, Component::Major)->Ok_0.pre.len() == 0,
        bump_spec(v, Component::Major)->Ok_0.minor == 0,
        bump_spec(v, Component::Major)->Ok_0.patch == 0,
        bump_spec(v, Component::Major)->Ok_0.major == v.major + 1,
{
}

/// A prerelease bump of a version whose last identifier is the number `n`
/// (with `n` within `u64` range) succeeds, increments that identifier to
/// `n + 1`, and leaves major, minor and patch unchanged.
pub proof fn lemma_bump_prerelease(v: VersionV)
    requires
        v.pre.len() > 0,
        all_digits(v.pre.last()),
        dec_val(v.pre.last()) <= u64::MAX,
    ensures
        bump_spec(v, Component::Prerelease) is Ok,
        ({
            let nv = bump_spec(v, Component::Prerelease)->Ok_0;
            &&& nv.pre.len() == v.pre.len()
            &&& dec_val(nv.pre.last()) == dec_val(v.pre.last()) + 1
            &&& nv.major == v.major
            &&& nv.minor == v.minor
            &&& nv.patch == v.patch
        }),
{
    lemma_dec_of_canonical(dec_val(v.pre.last()) + 1);
    let nv = bump_spec(v, Component::Prerelease)->Ok_0;
    assert(nv.pre.last() == dec_of(dec_val(v.pre.last()) + 1));
}

/// Compute the next version by incrementing `component` of `v`.
pub fn bump(v: &Version, component: Component) -> (r: Result<Version, VersionError>)
    requires
        v.wf(),
        bump_in_range(v@, component),
    ensures
        bump_result_view(r) == bump_spec(v@, component),
        r matches Ok(nv) ==> nv.wf(),
{
    match component {
        Component::Major => {
            let nv = Version {
                major: v.major + 1,
                minor: 0,
                patch: 0,
                pre: Vec::new(),
                build: Vec::new(),
            };
            proof {
                assert(nv@ =~= bump_spec(v@, component)->Ok_0);
            }
            Ok(nv)
        },
        Component::Minor => {
            let nv = Version {
                major: v.major,
                minor: v.minor + 1,
                patch: 0,
                pre: Vec::new(),
                build: Vec::new(),
            };
            proof {
                assert(nv@ =~= bump_spec(v@, component)->Ok_0);
            }
            Ok(nv)
        },
        Component::Patch => {
            let nv = Version {
                major: v.major,
                minor: v.minor,
                patch: v.patch + 1,
                pre: Vec::new(),
                build: Vec::new(),
            };
            proof {
                assert(nv@ =~= bump_spec(v@, component)->Ok_0);
            }
            Ok(nv)
        },
        Component::Prerelease => {
            if v.pre.len() == 0 {
                proof {
                    assert(v@.pre.len() == 0);
                }
                return Err(VersionError::MissingPrerelease);
            }
            let last_ix = v.pre.len() - 1;
            let tail = &v.pre[last_ix];
            proof {
                assert(tail@ =~= v@.pre.last());
            }
            if !all_digits_exec(tail.as_slice()) {
                return Err(VersionError::NonNumericPrereleaseTail(copy_bytes(tail)));
            }
            let val = match parse_u64(tail.as_slice()) {
                Some(x) => x,
                None => {
                    return Err(VersionError::NonNumericPrereleaseTail(copy_bytes(tail)));
                },
            };
            let new_tail = u64_to_dec(val + 1);
            let mut pre = copy_ids(&v.pre);
            let ghost pre0 = pre@;
            let ghost pre0d = pre.deep_view();
            proof {
                assert(pre0.len() == pre0d.len());
                assert(pre0d == v@.pre);
            }
            pre[last_ix] = new_tail;
            let nv = Version {
                major: v.major,
                minor: v.minor,
                patch: v.patch,
                pre,
                build: copy_bytes(&v.build),
            };
            proof {
                let target = bump_pre_spec(v@);
                assert forall|j: int| 0 <= j < nv@.pre.len() implies nv@.pre[j] == target.pre[j] by {
                    assert(nv@.pre[j] == nv.pre@[j].deep_view());
                    if j < last_ix {
                        assert(nv.pre@[j] == pre0[j]);
                        assert(pre0[j].deep_view() == pre0d[j]);
                        assert(pre0d[j] == v@.pre[j]);
                        assert(target.pre[j] == v@.pre[j]);
                    } else {
                        assert(nv.pre@[j] == new_tail);
                        assert(new_tail.deep_view() =~= new_tail@);
                    }
                }
                assert(nv@.pre =~= target.pre);
                assert(nv@ =~= target);
                lemma_dec_of_canonical((val + 1) as nat);
                assert forall|j: int| 0 <= j < nv@.pre.len() implies valid_prerelease_id(
                    #[trigger] nv@.pre[j],
                ) by {
                    if j < last_ix {
                        assert(nv@.pre[j] == v@.pre[j]);
                    } else {
                        assert(nv@.pre[j] == dec_of((val + 1) as nat));
                        assert forall|t: int| 0 <= t < dec_of((val + 1) as nat).len() implies
                            is_ident_byte(#[trigger] dec_of((val + 1) as nat)[t]) by {
                            assert(is_digit(dec_of((val + 1) as nat)[t]));
                        }
                    }
                }
                assert(wf_version(nv@));
            }
            Ok(nv)
        },
    }
}

/// The component bumped when the caller picks none: Prerelease when the
/// current version has a prerelease field, Patch otherwise.
pub open spec fn spec_default_component(v: VersionV) -> Component {
    if v.pre.len() > 0 {
        Component::Prerelease
    } else {
        Component::Patch
    }
}

/// The component to bump for this version when the caller picks none.
pub fn default_component(v: &Version) -> (r: Component)
    ensures
        r == spec_default_component(v@),
{
    if v.pre.len() > 0 {
        Component::Prerelease
    } else {
        Component::Patch
    }
}

/// The component a request actually bumps: the one named, or the default
/// for the current version.
pub open spec fn effective_component(v: VersionV, component: Option<Component>) -> Component {
    match component {
        Some(c) => c,
        None => spec_default_component(v),
    }
}

/// What a whole resolve-and-bump run yields on a parsed tag list: the
/// current version in scope is selected and the requested (or default)
/// component is bumped; with no candidate the run fails.
pub open spec fn resolve_spec(
    tags: Seq<TagV>,
    scope: Scope,
    head: Seq<u8>,
    component: Option<Component>,
) -> Result<VersionV, VersionErrorV> {
    match select_spec(tags, scope, head) {
        None => Err(VersionErrorV::NoCandidateVersion),
        Some(cur) => bump_spec(cur, effective_component(cur, component)),
    }
}

/// The bump arithmetic fits in a `u64` whichever tag is selected.
pub open spec fn tags_in_range(tags: Seq<TagV>, component: Option<Component>) -> bool {
    forall|i: int|
        0 <= i < tags.len() ==> bump_in_range(
            #[trigger] tags[i].version,
            effective_component(tags[i].version, component),
        )
}

/// Select the current version among `tags` under `scope` and bump the
/// requested (or default) component of it.
pub fn next_version(
    tags: &Vec<Tag>,
    scope: Scope,
    head: &Vec<u8>,
    component: Option<Component>,
) -> (r: Result<Version, VersionError>)
    requires
        forall|i: int|
            0 <= i < tags.deep_view().len() ==> wf_version(#[trigger] tags.deep_view()[i].version),
        tags_in_range(tags.deep_view(), component),
    ensures
        bump_result_view(r) == resolve_spec(tags.deep_view(), scope, head@, component),
        r matches Ok(nv) ==> nv.wf(),
{
    match select_current(tags, scope, head) {
        None => Err(VersionError::NoCandidateVersion),
        Some(cur) => {
            proof {
                let tv = tags.deep_view();
                let c = candidates(tv, scope, head@);
                lemma_candidates_members(tv, scope, head@);
                lemma_max_from_member(c);
                assert(cur@ == crate::select::max_from(c));
                let jj = choose|i: int| 0 <= i < c.len() && crate::select::max_from(c) == c[i];
                let i0 = choose|i: int| 0 <= i < tv.len() && c[jj] == tv[i].version;
                assert(bump_in_range(tv[i0].version, effective_component(tv[i0].version, component)));
                assert(bump_in_range(cur@, effective_component(cur@, component)));
            }
            let c = match component {
                Some(c) => c,
                None => default_component(&cur),
            };
            bump(&cur, c)
        },
    }
}

/// Whether the bump of `component` on `v` stays within a `u64`.
fn bump_in_range_exec(v: &Version, component: Component) -> (r: bool)
    requires
        v.wf(),
    ensures
        r == bump_in_range(v@, component),
{
    match component {
        Component::Major => v.major < u64::MAX,
        Component::Minor => v.minor < u64::MAX,
        Component::Patch => v.patch < u64::MAX,
        Component::Prerelease => {
            if v.pre.len() == 0 {
                return true;
            }
            let tail = &v.pre[v.pre.len() - 1];
            proof {
                assert(tail@ =~= v@.pre.last());
            }
            if !all_digits_exec(tail.as_slice()) {
                return true;
            }
            match parse_u64(tail.as_slice()) {
                Some(x) => x < u64::MAX,
                None => true,
            }
        },
    }
}

/// Run the whole resolver on raw repository tags: parse the tag names,
/// select the current version under `scope`, and bump the requested (or
/// default) component.  Returns `None` in the one case the computation
/// cannot represent: the increment would exceed `u64::MAX`.
pub fn resolve_next_version(
    raw: &Vec<RawTag>,
    scope: Scope,
    head: &Vec<u8>,
    component: Option<Component>,
) -> (r: Option<Result<Version, VersionError>>)
    ensures
        (match r {
            Some(res) => bump_result_view(res) == resolve_spec(
                collect_spec(raw.deep_view()),
                scope,
                head@,
                component,
            ) && (res matches Ok(nv) ==> nv.wf()),
            None => ({
                let sel = select_spec(collect_spec(raw.deep_view()), scope, head@);
                sel is Some && !bump_in_range(
                    sel->Some_0,
                    effective_component(sel->Some_0, component),
                )
            }),
        }),
{
    let tags = collect_tags(raw);
    proof {
        lemma_collect_wf(raw.deep_view());
    }
    match select_current(&tags, scope, head) {
        None => Some(Err(VersionError::NoCandidateVersion)),
        Some(cur) => {
            let c = match component {
                Some(c) => c,
                None => default_component(&cur),
            };
            proof {
                assert(c == effective_component(cur@, component));
            }
            if !bump_in_range_exec(&cur, c) {
                return None;
            }
            Some(bump(&cur, c))
        },
    }
}

} // verus!
