//! Canonical formatting of a version: the specification of the string form
//! and the verified formatter that produces it.

use crate::num::{all_digits, dec_of, is_digit, lemma_dec_of_canonical, u64_to_dec};
use crate::text::{
    ascii_only, join_dots, lemma_ascii_concat, lemma_join_dots_ascii, lemma_join_dots_push,
    lemma_split_at_dots, push_all, split_at_dots, DOT, HYPHEN, PLUS,
};
use crate::version::{
    is_ident_byte, valid_build, valid_build_id, valid_prerelease_id, wf_version, Version, VersionV,
};
use vstd::prelude::*;

verus! {

/// The prerelease part of the string form: `-` and the dot-joined
/// identifiers, or nothing.
pub open spec fn fmt_pre(pre: Seq<Seq<u8>>) -> Seq<u8> {
    if pre.len() == 0 {
        Seq::empty()
    } else {
        seq![HYPHEN] + join_dots(pre)
    }
}

/// The build part of the string form: `+` and the raw build bytes, or
/// nothing.
pub open spec fn fmt_build(build: Seq<u8>) -> Seq<u8> {
    if build.len() == 0 {
        Seq::empty()
    } else {
        seq![PLUS] + build
    }
}

/// The canonical string form of a version:
/// `MAJOR.MINOR.PATCH[-PRERELEASE][+BUILD]`.
pub open spec fn fmt_version(v: VersionV) -> Seq<u8> {
    dec_of(v.major) + seq![DOT] + dec_of(v.minor) + seq![DOT] + dec_of(v.patch) + fmt_pre(v.pre)
        + fmt_build(v.build)
}

proof fn lemma_digits_ascii(s: Seq<u8>)
    requires
        all_digits(s),
    ensures
        ascii_only(s),
{
    assert forall|i: int| 0 <= i < s.len() implies #[trigger] s[i] < 128 by {
        assert(is_digit(s[i]));
    }
}

proof fn lemma_ident_ascii(s: Seq<u8>)
    requires
        forall|i: int| 0 <= i < s.len() ==> is_ident_byte(#[trigger] s[i]),
    ensures
        ascii_only(s),
{
    assert forall|i: int| 0 <= i < s.len() implies #[trigger] s[i] < 128 by {
        assert(is_ident_byte(s[i]));
    }
}

/// The string form of a well-formed version is ASCII.
pub proof fn lemma_fmt_version_ascii(v: VersionV)
    requires
        wf_version(v),
    ensures
        ascii_only(fmt_version(v)),
{
    lemma_dec_of_canonical(v.major);
    lemma_dec_of_canonical(v.minor);
    lemma_dec_of_canonical(v.patch);
    lemma_digits_ascii(dec_of(v.major));
    lemma_digits_ascii(dec_of(v.minor));
    lemma_digits_ascii(dec_of(v.patch));
    assert(ascii_only(seq![DOT]));
    if v.pre.len() > 0 {
        assert forall|i: int| 0 <= i < v.pre.len() implies ascii_only(#[trigger] v.pre[i]) by {
            assert(valid_prerelease_id(v.pre[i]));
            lemma_ident_ascii(v.pre[i]);
        }
        lemma_join_dots_ascii(v.pre);
        assert(ascii_only(seq![HYPHEN]));
        lemma_ascii_concat(seq![HYPHEN], join_dots(v.pre));
    }
    assert(ascii_only(fmt_pre(v.pre)));
    if v.build.len() > 0 {
        assert(valid_build(v.build));
        lemma_split_at_dots(v.build);
        assert forall|i: int| 0 <= i < split_at_dots(v.build).len() implies ascii_only(
            #[trigger] split_at_dots(v.build)[i],
        ) by {
            assert(valid_build_id(split_at_dots(v.build)[i]));
            lemma_ident_ascii(split_at_dots(v.build)[i]);
        }
        lemma_join_dots_ascii(split_at_dots(v.build));
        assert(ascii_only(v.build));
        assert(ascii_only(seq![PLUS]));
        lemma_ascii_concat(seq![PLUS], v.build);
    }
    assert(ascii_only(fmt_build(v.build)));
    lemma_ascii_concat(dec_of(v.major), seq![DOT]);
    lemma_ascii_concat(dec_of(v.major) + seq![DOT], dec_of(v.minor));
    lemma_ascii_concat(dec_of(v.major) + seq![DOT] + dec_of(v.minor), seq![DOT]);
    lemma_ascii_concat(dec_of(v.major) + seq![DOT] + dec_of(v.minor) + seq![DOT], dec_of(v.patch));
    lemma_ascii_concat(
        dec_of(v.major) + seq![DOT] + dec_of(v.minor) + seq![DOT] + dec_of(v.patch),
        fmt_pre(v.pre),
    );
    lemma_ascii_concat(
        dec_of(v.major) + seq![DOT] + dec_of(v.minor) + seq![DOT] + dec_of(v.patch) + fmt_pre(
            v.pre,
        ),
        fmt_build(v.build),
    );
}

/// The canonical byte string of a version.
pub fn format_version(v: &Version) -> (r: Vec<u8>)
    ensures
        r@ == fmt_version(v@),
{
    let mut out = u64_to_dec(v.major);
    out.push(DOT);
    let minor_digits = u64_to_dec(v.minor);
    push_all(&mut out, &minor_digits);
    out.push(DOT);
    let patch_digits = u64_to_dec(v.patch);
    push_all(&mut out, &patch_digits);
    proof {
        assert(out@ =~= dec_of(v@.major) + seq![DOT] + dec_of(v@.minor) + seq![DOT] + dec_of(
            v@.patch,
        ));
    }
    let ghost mmp = out@;
    if v.pre.len() > 0 {
        out.push(HYPHEN);
        push_all(&mut out, &v.pre[0]);
        proof {
            assert(v@.pre[0] =~= v.pre@[0]@);
            assert(v@.pre.take(1) =~= seq![v@.pre[0]]);
            assert(join_dots(seq![v@.pre[0]]) == v@.pre[0]);
            assert(out@ =~= mmp + seq![HYPHEN] + join_dots(v@.pre.take(1)));
        }
        let mut k: usize = 1;
        while k < v.pre.len()
            invariant
                1 <= k <= v.pre@.len(),
                v@.pre.len() == v.pre@.len(),
                v@.pre == v.pre.deep_view(),
                out@ == mmp + seq![HYPHEN] + join_dots(v@.pre.take(k as int)),
            decreases v.pre@.len() - k,
        {
            out.push(DOT);
            push_all(&mut out, &v.pre[k]);
            proof {
                assert(v@.pre[k as int] =~= v.pre@[k as int]@);
                lemma_join_dots_push(v@.pre.take(k as int), v@.pre[k as int]);
                assert(v@.pre.take(k as int).push(v@.pre[k as int]) =~= v@.pre.take(k + 1));
                assert(out@ =~= mmp + seq![HYPHEN] + join_dots(v@.pre.take(k + 1)));
            }
            k = k + 1;
        }
        proof {
            assert(v@.pre.take(v@.pre.len() as int) =~= v@.pre);
            assert(out@ =~= mmp + fmt_pre(v@.pre));
        }
    }
    proof {
        if v@.pre.len() == 0 {
            assert(out@ =~= mmp + fmt_pre(v@.pre));
        }
    }
    let ghost with_pre = out@;
    if v.build.len() > 0 {
        out.push(PLUS);
        push_all(&mut out, &v.build);
        proof {
            assert(out@ =~= with_pre + (seq![PLUS] + v@.build));
        }
    }
    proof {
        assert(out@ =~= with_pre + fmt_build(v@.build));
        assert(out@ =~= fmt_version(v@));
    }
    out
}

/// The characters of an ASCII byte string.
pub open spec fn chars_of(s: Seq<u8>) -> Seq<char> {
    s.map_values(|b: u8| b as char)
}

/// Relies on `String::from_utf8`: ASCII bytes decode to exactly those
/// characters.
#[verifier::external_body]
fn ascii_to_string(bytes: Vec<u8>) -> (r: String)
    requires
        ascii_only(bytes@),
    ensures
        r@ == chars_of(bytes@),
{
    String::from_utf8(bytes).unwrap()
}

impl Version {
    /// The canonical string form of the version, for printing or as a tag
    /// name.
    pub fn to_version_string(&self) -> (r: String)
        requires
            self.wf(),
        ensures
            r@ == chars_of(fmt_version(self@)),
    {
        let bytes = format_version(self);
        proof {
            lemma_fmt_version_ascii(self@);
        }
        ascii_to_string(bytes)
    }
}

} // verus!
