//! The data model: a parsed semantic version, its validity predicate, the
//! component and scope selectors, and the error taxonomy.

use crate::num::{all_digits, is_canonical_number};
use crate::text::{
    split_at_dots, DOT, HYPHEN, LOWER_A, LOWER_Z, NINE, UPPER_A, UPPER_Z, ZERO,
};
use vstd::prelude::*;

verus! {

/// A byte allowed inside a prerelease or build identifier: an ASCII letter,
/// a digit, or a hyphen.
pub open spec fn is_ident_byte(b: u8) -> bool {
    ||| ZERO <= b <= NINE
    ||| UPPER_A <= b <= UPPER_Z
    ||| LOWER_A <= b <= LOWER_Z
    ||| b == HYPHEN
}

/// A valid prerelease identifier: non-empty, identifier bytes only, and
/// without leading zeros when it is purely numeric.
pub open spec fn valid_prerelease_id(s: Seq<u8>) -> bool {
    &&& s.len() > 0
    &&& forall|i: int| 0 <= i < s.len() ==> is_ident_byte(#[trigger] s[i])
    &&& (all_digits(s) ==> is_canonical_number(s))
}

/// A valid build identifier: non-empty and identifier bytes only (leading
/// zeros are allowed in build metadata).
pub open spec fn valid_build_id(s: Seq<u8>) -> bool {
    &&& s.len() > 0
    &&& forall|i: int| 0 <= i < s.len() ==> is_ident_byte(#[trigger] s[i])
}

/// A valid non-empty build field, held as the raw bytes after the `+`:
/// every dot-separated segment is a valid build identifier.
pub open spec fn valid_build(s: Seq<u8>) -> bool {
    forall|i: int|
        0 <= i < split_at_dots(s).len() ==> valid_build_id(#[trigger] split_at_dots(s)[i])
}

/// Every identifier in a prerelease field is valid.
pub open spec fn valid_pre_ids(ids: Seq<Seq<u8>>) -> bool {
    forall|i: int| 0 <= i < ids.len() ==> valid_prerelease_id(#[trigger] ids[i])
}

/// The mathematical model of a semantic version.
#[verifier::ext_equal]
pub ghost struct VersionV {
    pub major: nat,
    pub minor: nat,
    pub patch: nat,
    /// The prerelease identifiers, in order; empty when there is none.
    pub pre: Seq<Seq<u8>>,
    /// The raw build metadata after the `+`; empty when there is none.
    pub build: Seq<u8>,
}

/// A well-formed version model: numeric components that fit a `u64`, valid
/// prerelease identifiers, and a valid (or absent) build field.
pub open spec fn wf_version(v: VersionV) -> bool {
    &&& v.major <= u64::MAX
    &&& v.minor <= u64::MAX
    &&& v.patch <= u64::MAX
    &&& forall|i: int| 0 <= i < v.pre.len() ==> valid_prerelease_id(#[trigger] v.pre[i])
    &&& (v.build.len() == 0 || valid_build(v.build))
}

/// A parsed semantic version.
#[derive(Debug, Clone, PartialEq, Eq)]
pub struct Version {
    pub major: u64,
    pub minor: u64,
    pub patch: u64,
    /// The prerelease identifiers, in order; empty when there is none.
    pub pre: Vec<Vec<u8>>,
    /// The raw build metadata after the `+`; empty when there is none.
    pub build: Vec<u8>,
}

impl View for Version {
    type V = VersionV;

    open spec fn view(&self) -> VersionV {
        VersionV {
            major: self.major as nat,
            minor: self.minor as nat,
            patch: self.patch as nat,
            pre: self.pre.deep_view(),
            build: self.build@,
        }
    }
}

impl Version {
    /// The version is a well-formed model.
    pub open spec fn wf(&self) -> bool {
        wf_version(self@)
    }
}

/// Which component of a version to increment.
#[derive(Clone, Copy, Debug, PartialEq, Eq, Structural)]
pub enum Component {
    Major,
    Minor,
    Patch,
    Prerelease,
}

impl Default for Component {
    /// The component bumped when the caller picks none and the current
    /// version has no prerelease.
    fn default() -> (r: Self)
        ensures
            r == Component::Patch,
    {
        Component::Patch
    }
}

/// Which tags are eligible as the current version: all of them, or only
/// those on the checked-out commit.
#[derive(Clone, Copy, Debug, PartialEq, Eq, Structural)]
pub enum Scope {
    Local,
    Global,
}

/// Why resolving or bumping a version failed.
#[derive(Debug, Clone, PartialEq, Eq)]
pub enum VersionError {
    /// No tag in the requested scope parses as a semantic version.
    NoCandidateVersion,
    /// A prerelease bump was requested, but the current version has no
    /// prerelease field.
    MissingPrerelease,
    /// The last prerelease identifier (carried here) is not a plain
    /// non-negative integer that a `u64` can hold.
    NonNumericPrereleaseTail(Vec<u8>),
}

/// The model of a `VersionError`.
pub ghost enum VersionErrorV {
    NoCandidateVersion,
    MissingPrerelease,
    NonNumericPrereleaseTail(Seq<u8>),
}

impl View for VersionError {
    type V = VersionErrorV;

    open spec fn view(&self) -> VersionErrorV {
        match self {
            VersionError::NoCandidateVersion => VersionErrorV::NoCandidateVersion,
            VersionError::MissingPrerelease => VersionErrorV::MissingPrerelease,
            VersionError::NonNumericPrereleaseTail(id) => VersionErrorV::NonNumericPrereleaseTail(
                id@,
            ),
        }
    }
}

/// Copy of a byte vector.
pub fn copy_bytes(v: &Vec<u8>) -> (r: Vec<u8>)
    ensures
        r@ == v@,
{
    let mut out: Vec<u8> = Vec::new();
    let mut i: usize = 0;
    while i < v.len()
        invariant
            i <= v@.len(),
            out@ == v@.take(i as int),
        decreases v@.len() - i,
    {
        out.push(v[i]);
        proof {
            assert(out@ =~= v@.take(i + 1));
        }
        i = i + 1;
    }
    proof {
        assert(v@.take(v@.len() as int) =~= v@);
    }
    out
}

/// Copy of a list of identifiers.
pub fn copy_ids(v: &Vec<Vec<u8>>) -> (r: Vec<Vec<u8>>)
    ensures
        r.deep_view() == v.deep_view(),
{
    let mut out: Vec<Vec<u8>> = Vec::new();
    let mut i: usize = 0;
    while i < v.len()
        invariant
            i <= v@.len(),
            out@.len() == i,
            forall|j: int| 0 <= j < i ==> #[trigger] out@[j]@ == v@[j]@,
        decreases v@.len() - i,
    {
        let x = copy_bytes(&v[i]);
        out.push(x);
        i = i + 1;
    }
    proof {
        assert forall|j: int| 0 <= j < out@.len() implies out.deep_view()[j]
            == v.deep_view()[j] by {
            assert(out.deep_view()[j] == out@[j].deep_view());
            assert(out@[j].deep_view() =~= out@[j]@);
            assert(v.deep_view()[j] == v@[j].deep_view());
            assert(v@[j].deep_view() =~= v@[j]@);
        }
        assert(out.deep_view() =~= v.deep_view());
    }
    out
}

} // verus!
