//! Semantic-versioning precedence: the order on prerelease identifiers and
//! on versions, its total-order laws, and the executable comparison.

use crate::num::{
    all_digits, all_digits_exec, dec_val, is_canonical_number, lemma_canonical_roundtrip,
    lemma_equal_len_compare, lemma_shorter_smaller,
};
use crate::text::{bytes_lex_lt, lemma_lex_lt_total, lemma_lex_lt_trans, lex_lt};
use crate::version::{valid_pre_ids, valid_prerelease_id, wf_version, Version, VersionV};
use vstd::prelude::*;

verus! {

/// Order on single prerelease identifiers: numeric identifiers compare by
/// value and rank below alphanumeric ones; alphanumeric identifiers compare
/// byte-wise in ASCII order.
pub open spec fn id_lt(a: Seq<u8>, b: Seq<u8>) -> bool {
    if all_digits(a) && all_digits(b) {
        dec_val(a) < dec_val(b)
    } else if all_digits(a) {
        true
    } else if all_digits(b) {
        false
    } else {
        lex_lt(a, b)
    }
}

/// Order on prerelease identifier sequences: identifier by identifier,
/// with a shorter sequence ranking below any extension of it.
pub open spec fn ids_lt(a: Seq<Seq<u8>>, b: Seq<Seq<u8>>) -> bool
    decreases a.len(),
{
    if b.len() == 0 {
        false
    } else if a.len() == 0 {
        true
    } else if id_lt(a[0], b[0]) {
        true
    } else if id_lt(b[0], a[0]) {
        false
    } else {
        ids_lt(a.skip(1), b.skip(1))
    }
}

/// Version precedence: numeric components first; a version with a
/// prerelease ranks below the same version without one; prerelease fields
/// compare identifier by identifier.  Build metadata is ignored.
pub open spec fn version_lt(a: VersionV, b: VersionV) -> bool {
    if a.major != b.major {
        a.major < b.major
    } else if a.minor != b.minor {
        a.minor < b.minor
    } else if a.patch != b.patch {
        a.patch < b.patch
    } else if a.pre.len() > 0 && b.pre.len() == 0 {
        true
    } else if a.pre.len() == 0 && b.pre.len() > 0 {
        false
    } else {
        ids_lt(a.pre, b.pre)
    }
}

/// The identifier order is asymmetric.
pub proof fn lemma_id_lt_asym(a: Seq<u8>, b: Seq<u8>)
    ensures
        !(id_lt(a, b) && id_lt(b, a)),
{
    lemma_lex_lt_total(a, b);
}

/// The identifier order is transitive.
pub proof fn lemma_id_lt_trans(a: Seq<u8>, b: Seq<u8>, c: Seq<u8>)
    requires
        id_lt(a, b),
        id_lt(b, c),
    ensures
        id_lt(a, c),
{
    if !all_digits(a) && !all_digits(b) && !all_digits(c) {
        lemma_lex_lt_trans(a, b, c);
    }
}

/// Two valid identifiers neither of which is below the other are equal.
pub proof fn lemma_id_lt_connex(a: Seq<u8>, b: Seq<u8>)
    requires
        valid_prerelease_id(a),
        valid_prerelease_id(b),
        !id_lt(a, b),
        !id_lt(b, a),
    ensures
        a == b,
{
    if all_digits(a) && all_digits(b) {
        assert(is_canonical_number(a));
        assert(is_canonical_number(b));
        lemma_canonical_roundtrip(a);
        lemma_canonical_roundtrip(b);
        assert(dec_val(a) == dec_val(b));
    } else if all_digits(a) {
        assert(id_lt(a, b));
    } else if all_digits(b) {
        assert(id_lt(b, a));
    } else {
        lemma_lex_lt_total(a, b);
    }
}

/// The identifier-sequence order is asymmetric.
pub proof fn lemma_ids_lt_asym(a: Seq<Seq<u8>>, b: Seq<Seq<u8>>)
    ensures
        !(ids_lt(a, b) && ids_lt(b, a)),
    decreases a.len(),
{
    if a.len() > 0 && b.len() > 0 {
        lemma_id_lt_asym(a[0], b[0]);
        if !id_lt(a[0], b[0]) && !id_lt(b[0], a[0]) {
            lemma_ids_lt_asym(a.skip(1), b.skip(1));
        }
    }
}

/// The identifier-sequence order is transitive on valid identifiers.
pub proof fn lemma_ids_lt_trans(a: Seq<Seq<u8>>, b: Seq<Seq<u8>>, c: Seq<Seq<u8>>)
    requires
        valid_pre_ids(a),
        valid_pre_ids(b),
        valid_pre_ids(c),
        ids_lt(a, b),
        ids_lt(b, c),
    ensures
        ids_lt(a, c),
    decreases a.len(),
{
    if a.len() == 0 || b.len() == 0 || c.len() == 0 {
    } else {
        let a0 = a[0];
        let b0 = b[0];
        let c0 = c[0];
        assert(valid_prerelease_id(a0));
        assert(valid_prerelease_id(b0));
        assert(valid_prerelease_id(c0));
        if id_lt(a0, b0) {
            if id_lt(b0, c0) {
                lemma_id_lt_trans(a0, b0, c0);
            } else {
                lemma_id_lt_asym(b0, c0);
                lemma_id_lt_connex(b0, c0);
                assert(b0 == c0);
            }
            assert(id_lt(a0, c0));
        } else {
            lemma_id_lt_asym(a0, b0);
            lemma_id_lt_connex(a0, b0);
            assert(a0 == b0);
            if id_lt(b0, c0) {
                assert(id_lt(a0, c0));
            } else {
                lemma_id_lt_connex(b0, c0);
                assert(b0 == c0);
                assert forall|j: int| 0 <= j < a.skip(1).len() implies valid_prerelease_id(
                    #[trigger] a.skip(1)[j],
                ) by {
                    assert(a.skip(1)[j] == a[j + 1]);
                }
                assert forall|j: int| 0 <= j < b.skip(1).len() implies valid_prerelease_id(
                    #[trigger] b.skip(1)[j],
                ) by {
                    assert(b.skip(1)[j] == b[j + 1]);
                }
                assert forall|j: int| 0 <= j < c.skip(1).len() implies valid_prerelease_id(
                    #[trigger] c.skip(1)[j],
                ) by {
                    assert(c.skip(1)[j] == c[j + 1]);
                }
                lemma_ids_lt_trans(a.skip(1), b.skip(1), c.skip(1));
            }
        }
    }
}

/// Two valid identifier sequences neither of which is below the other are
/// equal.
pub proof fn lemma_ids_lt_connex(a: Seq<Seq<u8>>, b: Seq<Seq<u8>>)
    requires
        valid_pre_ids(a),
        valid_pre_ids(b),
        !ids_lt(a, b),
        !ids_lt(b, a),
    ensures
        a == b,
    decreases a.len(),
{
    if a.len() == 0 && b.len() == 0 {
        assert(a =~= b);
    } else if a.len() == 0 || b.len() == 0 {
        assert(ids_lt(a, b) || ids_lt(b, a));
    } else {
        lemma_id_lt_connex(a[0], b[0]);
        assert(a[0] == b[0]);
        assert forall|j: int| 0 <= j < a.skip(1).len() implies valid_prerelease_id(
            #[trigger] a.skip(1)[j],
        ) by {
            assert(a.skip(1)[j] == a[j + 1]);
        }
        assert forall|j: int| 0 <= j < b.skip(1).len() implies valid_prerelease_id(
            #[trigger] b.skip(1)[j],
        ) by {
            assert(b.skip(1)[j] == b[j + 1]);
        }
        lemma_ids_lt_connex(a.skip(1), b.skip(1));
        assert forall|i: int| 0 <= i < a.len() implies a[i] == b[i] by {
            if i > 0 {
                assert(a[i] == a.skip(1)[i - 1]);
                assert(b[i] == b.skip(1)[i - 1]);
            }
        }
        assert(a =~= b);
    }
}

/// Version precedence is asymmetric: no two versions are each below the
/// other.
pub proof fn lemma_version_lt_asym(a: VersionV, b: VersionV)
    ensures
        !(version_lt(a, b) && version_lt(b, a)),
{
    lemma_ids_lt_asym(a.pre, b.pre);
}

/// Version precedence is transitive on well-formed versions.
pub proof fn lemma_version_lt_trans(a: VersionV, b: VersionV, c: VersionV)
    requires
        wf_version(a),
        wf_version(b),
        wf_version(c),
        version_lt(a, b),
        version_lt(b, c),
    ensures
        version_lt(a, c),
{
    if a.major == c.major && a.minor == c.minor && a.patch == c.patch && b.major == a.major
        && b.minor == a.minor && b.patch == a.patch {
        if a.pre.len() > 0 && b.pre.len() > 0 && c.pre.len() > 0 {
            lemma_ids_lt_trans(a.pre, b.pre, c.pre);
        }
    }
}

/// Two well-formed versions neither of which precedes the other agree on
/// every part but the build metadata (which precedence ignores).
pub proof fn lemma_version_lt_connex(a: VersionV, b: VersionV)
    requires
        wf_version(a),
        wf_version(b),
        !version_lt(a, b),
        !version_lt(b, a),
    ensures
        a.major == b.major,
        a.minor == b.minor,
        a.patch == b.patch,
        a.pre == b.pre,
{
    lemma_ids_lt_connex(a.pre, b.pre);
}

/// Whether valid identifier `a` precedes valid identifier `b`.
pub fn id_lt_exec(a: &[u8], b: &[u8]) -> (r: bool)
    requires
        valid_prerelease_id(a@),
        valid_prerelease_id(b@),
    ensures
        r == id_lt(a@, b@),
{
    let da = all_digits_exec(a);
    let db = all_digits_exec(b);
    if da && db {
        proof {
            assert(is_canonical_number(a@));
            assert(is_canonical_number(b@));
        }
        if a.len() < b.len() {
            proof {
                lemma_shorter_smaller(a@, b@);
            }
            true
        } else if b.len() < a.len() {
            proof {
                lemma_shorter_smaller(b@, a@);
            }
            false
        } else {
            proof {
                lemma_equal_len_compare(a@, b@);
            }
            bytes_lex_lt(a, b)
        }
    } else if da {
        true
    } else if db {
        false
    } else {
        bytes_lex_lt(a, b)
    }
}

/// Whether the valid identifier sequence `a` precedes `b`.
#[verifier::loop_isolation(false)]
pub fn ids_lt_exec(a: &Vec<Vec<u8>>, b: &Vec<Vec<u8>>) -> (r: bool)
    requires
        valid_pre_ids(a.deep_view()),
        valid_pre_ids(b.deep_view()),
    ensures
        r == ids_lt(a.deep_view(), b.deep_view()),
{
    let ghost av = a.deep_view();
    let ghost bv = b.deep_view();
    let mut i: usize = 0;
    proof {
        assert(av.skip(0) =~= av);
        assert(bv.skip(0) =~= bv);
    }
    while i < a.len() && i < b.len()
        invariant
            i <= av.len(),
            i <= bv.len(),
            ids_lt(av, bv) == ids_lt(av.skip(i as int), bv.skip(i as int)),
        decreases av.len() - i,
    {
        proof {
            assert(a@[i as int]@ =~= av[i as int]);
            assert(b@[i as int]@ =~= bv[i as int]);
            assert(av.skip(i as int)[0] == av[i as int]);
            assert(bv.skip(i as int)[0] == bv[i as int]);
        }
        if id_lt_exec(a[i].as_slice(), b[i].as_slice()) {
            return true;
        }
        if id_lt_exec(b[i].as_slice(), a[i].as_slice()) {
            return false;
        }
        proof {
            assert(av.skip(i as int).skip(1) =~= av.skip(i + 1));
            assert(bv.skip(i as int).skip(1) =~= bv.skip(i + 1));
        }
        i = i + 1;
    }
    let r = a.len() < b.len();
    proof {
        let sa = av.skip(i as int);
        let sb = bv.skip(i as int);
        assert(sa.len() == 0 || sb.len() == 0);
        assert(ids_lt(sa, sb) == (sb.len() > 0));
    }
    r
}

/// Whether well-formed version `a` strictly precedes `b` in semantic
/// versioning order.
pub fn version_lt_exec(a: &Version, b: &Version) -> (r: bool)
    requires
        a.wf(),
        b.wf(),
    ensures
        r == version_lt(a@, b@),
{
    if a.major != b.major {
        return a.major < b.major;
    }
    if a.minor != b.minor {
        return a.minor < b.minor;
    }
    if a.patch != b.patch {
        return a.patch < b.patch;
    }
    let a_empty = a.pre.len() == 0;
    let b_empty = b.pre.len() == 0;
    if !a_empty && b_empty {
        return true;
    }
    if a_empty && !b_empty {
        return false;
    }
    proof {
        assert(a@.pre == a.pre.deep_view());
        assert(b@.pre == b.pre.deep_view());
        assert(valid_pre_ids(a.pre.deep_view()));
        assert(valid_pre_ids(b.pre.deep_view()));
    }
    ids_lt_exec(&a.pre, &b.pre)
}

} // verus!
