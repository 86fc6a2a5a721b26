//! Parsing of the semantic-version grammar
//! `MAJOR.MINOR.PATCH[-PRERELEASE][+BUILD]`, specified declaratively and
//! proved to round-trip with the canonical formatter.

use crate::fmt::{fmt_build, fmt_pre, fmt_version};
use crate::num::{
    all_digits_exec, canonical_number_exec, dec_of, dec_val, is_canonical_number, is_digit,
    lemma_canonical_roundtrip, lemma_dec_of_canonical, parse_u64,
};
use crate::text::{
    bytes_satisfy, dot_free, join_dots, lemma_bytes_satisfy_concat, lemma_join_dots_satisfy,
    lemma_pos_of, lemma_pos_of_absent, lemma_pos_of_unique, lemma_split_at_dots,
    lemma_split_of_join, pos_of, scan_byte, split_at_dots, sub_vec, DOT, HYPHEN, LOWER_A, LOWER_Z,
    NINE, PLUS, UPPER_A, UPPER_Z, ZERO,
};
use crate::version::{
    is_ident_byte, valid_build, valid_build_id, valid_pre_ids, valid_prerelease_id, wf_version,
    Version, VersionV,
};
use vstd::prelude::*;

verus! {

/// A valid `MAJOR.MINOR.PATCH` core: exactly three dot-separated canonical
/// numbers, each fitting a `u64`.
pub open spec fn valid_mmp(s: Seq<u8>) -> bool {
    let parts = split_at_dots(s);
    &&& parts.len() == 3
    &&& forall|i: int|
        0 <= i < 3 ==> is_canonical_number(#[trigger] parts[i]) && dec_val(parts[i]) <= u64::MAX
}

/// What a byte string means as a semantic version, if anything: the build
/// field starts at the first `+`, the prerelease field at the first `-`
/// before it, and the remainder must be three dot-separated numbers.
pub open spec fn spec_parse(s: Seq<u8>) -> Option<VersionV> {
    let pp = pos_of(s, PLUS) as int;
    let core = s.take(pp);
    let has_build = pp < s.len();
    let build = s.skip(pp + 1);
    let hp = pos_of(core, HYPHEN) as int;
    let mmp = core.take(hp);
    let has_pre = hp < core.len();
    let ids = split_at_dots(core.skip(hp + 1));
    if !valid_mmp(mmp) {
        None
    } else if has_pre && !valid_pre_ids(ids) {
        None
    } else if has_build && !valid_build(build) {
        None
    } else {
        Some(
            VersionV {
                major: dec_val(split_at_dots(mmp)[0]),
                minor: dec_val(split_at_dots(mmp)[1]),
                patch: dec_val(split_at_dots(mmp)[2]),
                pre: if has_pre {
                    ids
                } else {
                    Seq::empty()
                },
                build: if has_build {
                    build
                } else {
                    Seq::empty()
                },
            },
        )
    }
}

/// Every string that parses is the canonical form of what it parses to:
/// the parsed version is well-formed, and formatting it yields the very
/// same string.
pub proof fn lemma_parse_format(s: Seq<u8>)
    requires
        spec_parse(s) is Some,
    ensures
        wf_version(spec_parse(s)->Some_0),
        fmt_version(spec_parse(s)->Some_0) == s,
{
    let pp = pos_of(s, PLUS) as int;
    let core = s.take(pp);
    let has_build = pp < s.len();
    let build = s.skip(pp + 1);
    let hp = pos_of(core, HYPHEN) as int;
    let mmp = core.take(hp);
    let has_pre = hp < core.len();
    let ids = split_at_dots(core.skip(hp + 1));
    let v = spec_parse(s)->Some_0;
    lemma_pos_of(s, PLUS);
    lemma_pos_of(core, HYPHEN);
    let parts = split_at_dots(mmp);
    lemma_split_at_dots(mmp);
    assert(valid_mmp(mmp));
    lemma_canonical_roundtrip(parts[0]);
    lemma_canonical_roundtrip(parts[1]);
    lemma_canonical_roundtrip(parts[2]);
    assert(parts.skip(1).len() == 2);
    assert(parts.skip(1)[0] == parts[1]);
    assert(parts.skip(1).skip(1).len() == 1);
    assert(parts.skip(1).skip(1)[0] == parts[2]);
    assert(join_dots(parts.skip(1).skip(1)) == parts[2]);
    assert(join_dots(parts.skip(1)) == parts[1] + seq![DOT] + parts[2]);
    assert(join_dots(parts) == parts[0] + seq![DOT] + join_dots(parts.skip(1)));
    assert(mmp == join_dots(parts));
    assert(dec_of(v.major) == parts[0]);
    assert(dec_of(v.minor) == parts[1]);
    assert(dec_of(v.patch) == parts[2]);
    if has_pre {
        assert(core[hp] == HYPHEN);
        lemma_split_at_dots(core.skip(hp + 1));
        assert(join_dots(ids) == core.skip(hp + 1));
        assert(v.pre == ids);
        assert(ids.len() >= 1);
        assert(fmt_pre(v.pre) == seq![HYPHEN] + core.skip(hp + 1));
        assert(core =~= mmp + seq![HYPHEN] + core.skip(hp + 1));
    } else {
        assert(core =~= mmp);
        assert(v.pre.len() == 0);
    }
    if has_build {
        assert(s[pp] == PLUS);
        assert(v.build == build);
        assert(valid_build(build));
        if build.len() == 0 {
            lemma_split_at_dots(build);
            assert(split_at_dots(build)[0].len() == 0);
            assert(!valid_build_id(split_at_dots(build)[0]));
            assert(false);
        }
        assert(fmt_build(v.build) == seq![PLUS] + build);
        assert(s =~= core + seq![PLUS] + build);
    } else {
        assert(s =~= core);
        assert(v.build.len() == 0);
    }
    assert(fmt_version(v) =~= s);
}


/// Every well-formed version is recovered from its canonical form: parsing
/// what the formatter produced yields the version itself.
pub proof fn lemma_format_parse(v: VersionV)
    requires
        wf_version(v),
    ensures
        spec_parse(fmt_version(v)) == Some(v),
{
    let s = fmt_version(v);
    let d0 = dec_of(v.major);
    let d1 = dec_of(v.minor);
    let d2 = dec_of(v.patch);
    lemma_dec_of_canonical(v.major);
    lemma_dec_of_canonical(v.minor);
    lemma_dec_of_canonical(v.patch);
    let mmp = d0 + seq![DOT] + d1 + seq![DOT] + d2;
    let core = mmp + fmt_pre(v.pre);
    assert(s =~= core + fmt_build(v.build));
    let benign = (|x: u8| is_digit(x) || x == DOT);
    assert(bytes_satisfy(d0, benign));
    assert(bytes_satisfy(d1, benign));
    assert(bytes_satisfy(d2, benign));
    assert(bytes_satisfy(seq![DOT], benign));
    lemma_bytes_satisfy_concat(d0, seq![DOT], benign);
    lemma_bytes_satisfy_concat(d0 + seq![DOT], d1, benign);
    lemma_bytes_satisfy_concat(d0 + seq![DOT] + d1, seq![DOT], benign);
    lemma_bytes_satisfy_concat(d0 + seq![DOT] + d1 + seq![DOT], d2, benign);
    assert(bytes_satisfy(mmp, benign));
    let not_plus = (|x: u8| x != PLUS);
    assert(bytes_satisfy(mmp, not_plus));
    if v.pre.len() > 0 {
        assert forall|i: int| 0 <= i < v.pre.len() implies bytes_satisfy(
            #[trigger] v.pre[i],
            not_plus,
        ) by {
            assert(valid_prerelease_id(v.pre[i]));
            assert forall|j: int| 0 <= j < v.pre[i].len() implies v.pre[i][j] != PLUS by {
                assert(is_ident_byte(v.pre[i][j]));
            }
        }
        lemma_join_dots_satisfy(v.pre, not_plus);
        assert(bytes_satisfy(seq![HYPHEN], not_plus));
        lemma_bytes_satisfy_concat(seq![HYPHEN], join_dots(v.pre), not_plus);
    }
    assert(bytes_satisfy(fmt_pre(v.pre), not_plus));
    lemma_bytes_satisfy_concat(mmp, fmt_pre(v.pre), not_plus);
    assert(bytes_satisfy(core, not_plus));
    if v.build.len() == 0 {
        assert(s =~= core);
        assert forall|j: int| 0 <= j < s.len() implies s[j] != PLUS by {
            assert(not_plus(s[j]));
        }
        lemma_pos_of_absent(s, PLUS);
    } else {
        assert(s =~= core + seq![PLUS] + v.build);
        assert(s[core.len() as int] == PLUS);
        assert forall|j: int| 0 <= j < core.len() implies s[j] != PLUS by {
            assert(s[j] == core[j]);
            assert(not_plus(core[j]));
        }
        lemma_pos_of_unique(s, PLUS, core.len() as int);
    }
    let pp = pos_of(s, PLUS) as int;
    assert(s.take(pp) =~= core);
    if v.build.len() > 0 {
        assert(s.skip(pp + 1) =~= v.build);
    }
    let not_hyphen = (|x: u8| x != HYPHEN);
    assert(bytes_satisfy(mmp, not_hyphen));
    if v.pre.len() == 0 {
        assert(core =~= mmp);
        assert forall|j: int| 0 <= j < core.len() implies core[j] != HYPHEN by {
            assert(not_hyphen(mmp[j]));
        }
        lemma_pos_of_absent(core, HYPHEN);
    } else {
        assert(fmt_pre(v.pre) == seq![HYPHEN] + join_dots(v.pre));
        assert(core[mmp.len() as int] == HYPHEN);
        assert forall|j: int| 0 <= j < mmp.len() implies core[j] != HYPHEN by {
            assert(core[j] == mmp[j]);
            assert(not_hyphen(mmp[j]));
        }
        lemma_pos_of_unique(core, HYPHEN, mmp.len() as int);
    }
    let hp = pos_of(core, HYPHEN) as int;
    assert(core.take(hp) =~= mmp);
    let parts3 = seq![d0, d1, d2];
    assert(parts3.skip(1) =~= seq![d1, d2]);
    assert(parts3.skip(1).skip(1) =~= seq![d2]);
    assert(join_dots(seq![d2]) == d2);
    assert(join_dots(parts3.skip(1)) == d1 + seq![DOT] + d2);
    assert(join_dots(parts3) == d0 + seq![DOT] + (d1 + seq![DOT] + d2));
    assert(join_dots(parts3) =~= mmp);
    assert forall|i: int| 0 <= i < parts3.len() implies dot_free(#[trigger] parts3[i]) by {
        assert forall|j: int| 0 <= j < parts3[i].len() implies parts3[i][j] != DOT by {
            assert(is_digit(parts3[i][j]));
        }
    }
    lemma_split_of_join(parts3);
    assert(split_at_dots(mmp) == parts3);
    assert(valid_mmp(mmp));
    if v.pre.len() > 0 {
        assert(hp < core.len());
        assert(core.skip(hp + 1) =~= join_dots(v.pre));
        assert forall|i: int| 0 <= i < v.pre.len() implies dot_free(#[trigger] v.pre[i]) by {
            assert(valid_prerelease_id(v.pre[i]));
            assert forall|j: int| 0 <= j < v.pre[i].len() implies v.pre[i][j] != DOT by {
                assert(is_ident_byte(v.pre[i][j]));
            }
        }
        lemma_split_of_join(v.pre);
        assert(split_at_dots(core.skip(hp + 1)) == v.pre);
        assert(valid_pre_ids(v.pre));
    } else {
        assert(hp == core.len());
    }
    if v.build.len() > 0 {
        assert(pp < s.len());
    } else {
        assert(pp == s.len());
    }
    assert(spec_parse(s) is Some);
    let pv = spec_parse(s)->Some_0;
    assert(pv.major == dec_val(d0));
    if v.pre.len() == 0 {
        assert(pv.pre =~= v.pre);
    }
    if v.build.len() == 0 {
        assert(pv.build =~= v.build);
    }
    assert(pv =~= v);
}

/// The dot-separated segments of `s[lo..hi]`, each as an owned vector.
pub fn split_segments(s: &[u8], lo: usize, hi: usize) -> (r: Vec<Vec<u8>>)
    requires
        lo <= hi <= s@.len(),
    ensures
        r.deep_view() == split_at_dots(s@.subrange(lo as int, hi as int)),
    decreases hi - lo,
{
    let ghost sub = s@.subrange(lo as int, hi as int);
    let p = scan_byte(s, lo, hi, DOT);
    if p == hi {
        let seg = sub_vec(s, lo, hi);
        let mut out: Vec<Vec<u8>> = Vec::new();
        out.push(seg);
        proof {
            assert(pos_of(sub, DOT) == sub.len());
            assert(split_at_dots(sub) == seq![sub]);
            assert(out.deep_view() =~~= seq![sub]);
        }
        out
    } else {
        let head = sub_vec(s, lo, p);
        let mut rest = split_segments(s, p + 1, hi);
        rest.insert(0, head);
        proof {
            let pr = pos_of(sub, DOT) as int;
            assert(pr == p - lo);
            assert(pr < sub.len());
            assert(sub.take(pr) =~= s@.subrange(lo as int, p as int));
            assert(sub.skip(pr + 1) =~= s@.subrange(p + 1, hi as int));
            assert(split_at_dots(sub) == seq![sub.take(pr)] + split_at_dots(sub.skip(pr + 1)));
            assert(rest.deep_view() =~~= split_at_dots(sub));
        }
        rest
    }
}

/// Whether every byte of `s` may appear in an identifier.
pub fn check_ident_bytes(s: &[u8]) -> (r: bool)
    ensures
        r == forall|i: int| 0 <= i < s@.len() ==> is_ident_byte(#[trigger] s@[i]),
{
    let mut i: usize = 0;
    while i < s.len()
        invariant
            i <= s@.len(),
            forall|j: int| 0 <= j < i ==> is_ident_byte(#[trigger] s@[j]),
        decreases s@.len() - i,
    {
        let b = s[i];
        let ok = (b >= ZERO && b <= NINE) || (b >= UPPER_A && b <= UPPER_Z) || (b >= LOWER_A
            && b <= LOWER_Z) || b == HYPHEN;
        if !ok {
            return false;
        }
        i = i + 1;
    }
    true
}

/// Whether `s` is a valid prerelease identifier.
pub fn check_pre_id(s: &[u8]) -> (r: bool)
    ensures
        r == valid_prerelease_id(s@),
{
    if s.len() == 0 {
        return false;
    }
    if !check_ident_bytes(s) {
        return false;
    }
    if all_digits_exec(s) {
        canonical_number_exec(s)
    } else {
        true
    }
}

/// Whether `s` is a valid build identifier.
pub fn check_build_id(s: &[u8]) -> (r: bool)
    ensures
        r == valid_build_id(s@),
{
    if s.len() == 0 {
        return false;
    }
    check_ident_bytes(s)
}

/// Parse a byte string as a semantic version.  Returns `None` exactly when
/// the string is not a valid semantic version (with numeric components that
/// fit a `u64`).
#[verifier::loop_isolation(false)]
pub fn parse_version(s: &[u8]) -> (r: Option<Version>)
    ensures
        match r {
            Some(v) => spec_parse(s@) == Some(v@) && v.wf(),
            None => spec_parse(s@) is None,
        },
{
    let n = s.len();
    let pp = scan_byte(s, 0, n, PLUS);
    proof {
        assert(s@.subrange(0, n as int) =~= s@);
    }
    let ghost core = s@.take(pp as int);
    let hp = scan_byte(s, 0, pp, HYPHEN);
    proof {
        assert(s@.subrange(0, pp as int) =~= core);
    }
    let ghost mmp = core.take(hp as int);
    proof {
        assert(s@.subrange(0, hp as int) =~= mmp);
    }
    let mmp_parts = split_segments(s, 0, hp);
    proof {
        assert(mmp_parts.deep_view() == split_at_dots(mmp));
    }
    if mmp_parts.len() != 3 {
        return None;
    }
    proof {
        assert(mmp_parts.deep_view().len() == 3);
    }
    let mut nums: Vec<u64> = Vec::new();
    let mut k: usize = 0;
    while k < 3
        invariant
            k <= 3,
            mmp_parts.deep_view() == split_at_dots(mmp),
            mmp_parts@.len() == 3,
            nums@.len() == k,
            forall|j: int|
                0 <= j < k ==> is_canonical_number(#[trigger] split_at_dots(mmp)[j]) && dec_val(
                    split_at_dots(mmp)[j],
                ) <= u64::MAX && nums@[j] == dec_val(split_at_dots(mmp)[j]),
        decreases 3 - k,
    {
        proof {
            assert(mmp_parts@[k as int]@ =~= mmp_parts.deep_view()[k as int]);
        }
        if !canonical_number_exec(mmp_parts[k].as_slice()) {
            proof {
                assert(!is_canonical_number(split_at_dots(mmp)[k as int]));
            }
            return None;
        }
        let val = match parse_u64(mmp_parts[k].as_slice()) {
            Some(x) => x,
            None => {
                proof {
                    assert(dec_val(split_at_dots(mmp)[k as int]) > u64::MAX);
                }
                return None;
            },
        };
        nums.push(val);
        k = k + 1;
    }
    proof {
        assert(valid_mmp(mmp));
    }
    let mut pre: Vec<Vec<u8>> = Vec::new();
    if hp < pp {
        pre = split_segments(s, hp + 1, pp);
        proof {
            assert(s@.subrange(hp + 1, pp as int) =~= core.skip(hp + 1));
            assert(pre.deep_view() == split_at_dots(core.skip(hp + 1)));
        }
        let mut i: usize = 0;
        while i < pre.len()
            invariant
                i <= pre@.len(),
                pre.deep_view() == split_at_dots(core.skip(hp as int + 1)),
                hp < pp <= s@.len(),
                core == s@.take(pp as int),
                forall|j: int|
                    0 <= j < i ==> valid_prerelease_id(
                        #[trigger] split_at_dots(core.skip(hp as int + 1))[j],
                    ),
            decreases pre@.len() - i,
        {
            proof {
                assert(pre@[i as int]@ =~= pre.deep_view()[i as int]);
            }
            if !check_pre_id(pre[i].as_slice()) {
                proof {
                    assert(!valid_prerelease_id(split_at_dots(core.skip(hp as int + 1))[i as int]));
                }
                return None;
            }
            i = i + 1;
        }
        proof {
            assert(valid_pre_ids(split_at_dots(core.skip(hp as int + 1))));
        }
    }
    let mut build: Vec<u8> = Vec::new();
    if pp < n {
        build = sub_vec(s, pp + 1, n);
        proof {
            assert(s@.subrange(pp + 1, n as int) =~= s@.skip(pp + 1));
        }
        let bparts = split_segments(s, pp + 1, n);
        proof {
            assert(bparts.deep_view() == split_at_dots(s@.skip(pp + 1)));
        }
        let mut i: usize = 0;
        while i < bparts.len()
            invariant
                i <= bparts@.len(),
                bparts.deep_view() == split_at_dots(s@.skip(pp as int + 1)),
                pp < n == s@.len(),
                forall|j: int|
                    0 <= j < i ==> valid_build_id(
                        #[trigger] split_at_dots(s@.skip(pp as int + 1))[j],
                    ),
            decreases bparts@.len() - i,
        {
            proof {
                assert(bparts@[i as int]@ =~= bparts.deep_view()[i as int]);
            }
            if !check_build_id(bparts[i].as_slice()) {
                proof {
                    assert(!valid_build_id(split_at_dots(s@.skip(pp as int + 1))[i as int]));
                }
                return None;
            }
            i = i + 1;
        }
        proof {
            assert(valid_build(s@.skip(pp + 1)));
        }
    }
    let major = nums[0];
    let minor = nums[1];
    let patch = nums[2];
    let v = Version { major, minor, patch, pre, build };
    proof {
        let sv = spec_parse(s@)->Some_0;
        assert(spec_parse(s@) is Some);
        if hp < pp {
            assert(v@.pre == sv.pre);
        } else {
            assert(v@.pre =~= Seq::<Seq<u8>>::empty());
        }
        if pp < n {
            assert(v@.build == sv.build);
        } else {
            assert(v@.build =~= Seq::<u8>::empty());
        }
        assert(v@ =~= sv);
        lemma_parse_format(s@);
    }
    Some(v)
}

} // verus!
