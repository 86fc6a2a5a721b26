//! Byte-string helpers: locating a separator, splitting a string at dots,
//! joining segments back, and lexicographic (byte-wise) ordering.

use vstd::prelude::*;

verus! {

/// ASCII `.`
pub const DOT: u8 = 46;

/// ASCII `-`
pub const HYPHEN: u8 = 45;

/// ASCII `+`
pub const PLUS: u8 = 43;

/// ASCII `0`
pub const ZERO: u8 = 48;

/// ASCII `9`
pub const NINE: u8 = 57;

/// ASCII `A`
pub const UPPER_A: u8 = 65;

/// ASCII `Z`
pub const UPPER_Z: u8 = 90;

/// ASCII `a`
pub const LOWER_A: u8 = 97;

/// ASCII `z`
pub const LOWER_Z: u8 = 122;

/// Index of the first occurrence of `b` in `s`; `s.len()` if `b` does not occur.
pub open spec fn pos_of(s: Seq<u8>, b: u8) -> nat
    decreases s.len(),
{
    if s.len() == 0 || s[0] == b {
        0
    } else {
        1 + pos_of(s.skip(1), b)
    }
}

/// `pos_of` is the first occurrence: it is in bounds, it hits `b` when in
/// range, and nothing before it is `b`.
pub proof fn lemma_pos_of(s: Seq<u8>, b: u8)
    ensures
        pos_of(s, b) <= s.len(),
        pos_of(s, b) < s.len() ==> s[pos_of(s, b) as int] == b,
        forall|j: int| 0 <= j < pos_of(s, b) ==> s[j] != b,
    decreases s.len(),
{
    if s.len() == 0 || s[0] == b {
    } else {
        lemma_pos_of(s.skip(1), b);
        assert forall|j: int| 0 <= j < pos_of(s, b) implies s[j] != b by {
            if j > 0 {
                assert(s.skip(1)[j - 1] == s[j]);
            }
        }
        if pos_of(s, b) < s.len() {
            assert(s.skip(1)[pos_of(s, b) - 1] == s[pos_of(s, b) as int]);
        }
    }
}

/// A position that hits `b` with no earlier occurrence is exactly `pos_of`.
pub proof fn lemma_pos_of_unique(s: Seq<u8>, b: u8, k: int)
    requires
        0 <= k < s.len(),
        s[k] == b,
        forall|j: int| 0 <= j < k ==> s[j] != b,
    ensures
        pos_of(s, b) == k,
{
    lemma_pos_of(s, b);
    if pos_of(s, b) < k {
        assert(s[pos_of(s, b) as int] == b);
    }
}

/// `b` does not occur in `s` exactly when `pos_of` runs off the end.
pub proof fn lemma_pos_of_absent(s: Seq<u8>, b: u8)
    requires
        forall|j: int| 0 <= j < s.len() ==> s[j] != b,
    ensures
        pos_of(s, b) == s.len(),
{
    lemma_pos_of(s, b);
}

/// No byte of `s` is a dot.
pub open spec fn dot_free(s: Seq<u8>) -> bool {
    forall|i: int| 0 <= i < s.len() ==> #[trigger] s[i] != DOT
}

/// The dot-separated segments of `s`, in order.  Splitting never drops
/// bytes: an empty string yields one empty segment, and `n` dots yield
/// `n + 1` segments.
pub open spec fn split_at_dots(s: Seq<u8>) -> Seq<Seq<u8>>
    decreases s.len(),
{
    let p = pos_of(s, DOT) as int;
    if p >= s.len() {
        seq![s]
    } else {
        seq![s.take(p)] + split_at_dots(s.skip(p + 1))
    }
}

/// The segments joined back together with single dots between them.
pub open spec fn join_dots(parts: Seq<Seq<u8>>) -> Seq<u8>
    decreases parts.len(),
{
    if parts.len() == 0 {
        Seq::empty()
    } else if parts.len() == 1 {
        parts[0]
    } else {
        parts[0] + seq![DOT] + join_dots(parts.skip(1))
    }
}

/// Splitting yields at least one segment, every segment is dot-free, and
/// joining the segments restores the original string.
pub proof fn lemma_split_at_dots(s: Seq<u8>)
    ensures
        split_at_dots(s).len() >= 1,
        forall|i: int|
            0 <= i < split_at_dots(s).len() ==> dot_free(#[trigger] split_at_dots(s)[i]),
        join_dots(split_at_dots(s)) == s,
    decreases s.len(),
{
    lemma_pos_of(s, DOT);
    let p = pos_of(s, DOT) as int;
    if p >= s.len() {
        assert(dot_free(s));
        assert(join_dots(split_at_dots(s)) == s);
    } else {
        let head = s.take(p);
        let rest = s.skip(p + 1);
        lemma_split_at_dots(rest);
        assert(dot_free(head));
        let parts = split_at_dots(s);
        assert forall|i: int| 0 <= i < parts.len() implies dot_free(#[trigger] parts[i]) by {
            if i > 0 {
                assert(parts[i] == split_at_dots(rest)[i - 1]);
            }
        }
        assert(parts.skip(1) =~= split_at_dots(rest));
        assert(join_dots(parts) == head + seq![DOT] + join_dots(split_at_dots(rest)));
        assert(head + seq![DOT] + rest =~= s);
    }
}

/// Joining dot-free segments and splitting again restores the segments.
pub proof fn lemma_split_of_join(parts: Seq<Seq<u8>>)
    requires
        parts.len() >= 1,
        forall|i: int| 0 <= i < parts.len() ==> dot_free(#[trigger] parts[i]),
    ensures
        split_at_dots(join_dots(parts)) == parts,
    decreases parts.len(),
{
    let s = join_dots(parts);
    if parts.len() == 1 {
        assert(s == parts[0]);
        lemma_pos_of_absent(s, DOT);
        assert(split_at_dots(s) =~= parts);
    } else {
        let rest = join_dots(parts.skip(1));
        assert(s == parts[0] + seq![DOT] + rest);
        let k = parts[0].len() as int;
        assert(s[k] == DOT);
        assert forall|j: int| 0 <= j < k implies s[j] != DOT by {
            assert(s[j] == parts[0][j]);
        }
        lemma_pos_of_unique(s, DOT, k);
        assert(s.take(k) =~= parts[0]);
        assert(s.skip(k + 1) =~= rest);
        assert forall|i: int| 0 <= i < parts.skip(1).len() implies dot_free(
            #[trigger] parts.skip(1)[i],
        ) by {
            assert(parts.skip(1)[i] == parts[i + 1]);
        }
        lemma_split_of_join(parts.skip(1));
        assert(split_at_dots(s) =~= parts);
    }
}

/// Joining one more segment appends a dot and the segment (no dot when it
/// is the only segment).
pub proof fn lemma_join_dots_push(parts: Seq<Seq<u8>>, x: Seq<u8>)
    ensures
        join_dots(parts.push(x)) == if parts.len() == 0 {
            x
        } else {
            join_dots(parts) + seq![DOT] + x
        },
    decreases parts.len(),
{
    if parts.len() == 0 {
        assert(parts.push(x)[0] == x);
    } else if parts.len() == 1 {
        assert(parts.push(x)[0] == parts[0]);
        assert(parts.push(x).skip(1) =~= seq![x]);
        assert(join_dots(seq![x]) == x);
        assert(join_dots(parts.push(x)) == parts[0] + seq![DOT] + x);
    } else {
        assert(parts.push(x)[0] == parts[0]);
        assert(parts.push(x).skip(1) =~= parts.skip(1).push(x));
        lemma_join_dots_push(parts.skip(1), x);
        assert(parts[0] + seq![DOT] + (join_dots(parts.skip(1)) + seq![DOT] + x) =~= (parts[0]
            + seq![DOT] + join_dots(parts.skip(1))) + seq![DOT] + x);
    }
}

/// Every byte of `s` satisfies `p`.
pub open spec fn bytes_satisfy(s: Seq<u8>, p: spec_fn(u8) -> bool) -> bool {
    forall|i: int| 0 <= i < s.len() ==> p(#[trigger] s[i])
}

/// A byte-wise property distributes over concatenation.
pub proof fn lemma_bytes_satisfy_concat(a: Seq<u8>, b: Seq<u8>, p: spec_fn(u8) -> bool)
    requires
        bytes_satisfy(a, p),
        bytes_satisfy(b, p),
    ensures
        bytes_satisfy(a + b, p),
{
    assert forall|i: int| 0 <= i < (a + b).len() implies p(#[trigger] (a + b)[i]) by {
        if i < a.len() {
            assert((a + b)[i] == a[i]);
        } else {
            assert((a + b)[i] == b[i - a.len()]);
        }
    }
}

/// A byte-wise property that holds of the dot and of every segment holds
/// of the joined string.
pub proof fn lemma_join_dots_satisfy(parts: Seq<Seq<u8>>, p: spec_fn(u8) -> bool)
    requires
        forall|i: int| 0 <= i < parts.len() ==> bytes_satisfy(#[trigger] parts[i], p),
        p(DOT),
    ensures
        bytes_satisfy(join_dots(parts), p),
    decreases parts.len(),
{
    if parts.len() == 0 {
    } else if parts.len() == 1 {
        assert(bytes_satisfy(parts[0], p));
    } else {
        assert forall|i: int| 0 <= i < parts.skip(1).len() implies bytes_satisfy(
            #[trigger] parts.skip(1)[i],
            p,
        ) by {
            assert(parts.skip(1)[i] == parts[i + 1]);
        }
        lemma_join_dots_satisfy(parts.skip(1), p);
        assert(bytes_satisfy(seq![DOT], p));
        lemma_bytes_satisfy_concat(parts[0], seq![DOT], p);
        lemma_bytes_satisfy_concat(parts[0] + seq![DOT], join_dots(parts.skip(1)), p);
    }
}

/// Every byte of `s` is ASCII.
pub open spec fn ascii_only(s: Seq<u8>) -> bool {
    forall|i: int| 0 <= i < s.len() ==> #[trigger] s[i] < 128
}

/// ASCII-ness distributes over concatenation.
pub proof fn lemma_ascii_concat(a: Seq<u8>, b: Seq<u8>)
    requires
        ascii_only(a),
        ascii_only(b),
    ensures
        ascii_only(a + b),
{
    assert forall|i: int| 0 <= i < (a + b).len() implies #[trigger] (a + b)[i] < 128 by {
        if i < a.len() {
            assert((a + b)[i] == a[i]);
        } else {
            assert((a + b)[i] == b[i - a.len()]);
        }
    }
}

/// Joined segments of ASCII bytes are ASCII (the separator is too).
pub proof fn lemma_join_dots_ascii(parts: Seq<Seq<u8>>)
    requires
        forall|i: int| 0 <= i < parts.len() ==> ascii_only(#[trigger] parts[i]),
    ensures
        ascii_only(join_dots(parts)),
    decreases parts.len(),
{
    if parts.len() == 0 {
    } else if parts.len() == 1 {
        assert(ascii_only(parts[0]));
    } else {
        assert forall|i: int| 0 <= i < parts.skip(1).len() implies ascii_only(
            #[trigger] parts.skip(1)[i],
        ) by {
            assert(parts.skip(1)[i] == parts[i + 1]);
        }
        lemma_join_dots_ascii(parts.skip(1));
        assert(ascii_only(seq![DOT]));
        lemma_ascii_concat(parts[0], seq![DOT]);
        lemma_ascii_concat(parts[0] + seq![DOT], join_dots(parts.skip(1)));
    }
}

/// Append every byte of `src` to `dst`.
pub fn push_all(dst: &mut Vec<u8>, src: &Vec<u8>)
    ensures
        final(dst)@ == old(dst)@ + src@,
{
    let ghost base = old(dst)@;
    let mut i: usize = 0;
    proof {
        assert(dst@ =~= base + src@.take(0));
    }
    while i < src.len()
        invariant
            i <= src@.len(),
            dst@ == base + src@.take(i as int),
        decreases src@.len() - i,
    {
        dst.push(src[i]);
        proof {
            assert(dst@ =~= base + src@.take(i + 1));
        }
        i = i + 1;
    }
    proof {
        assert(base + src@.take(src@.len() as int) =~= base + src@);
    }
}

/// Strict lexicographic order on byte strings; a proper prefix is smaller.
pub open spec fn lex_lt(a: Seq<u8>, b: Seq<u8>) -> bool
    decreases a.len(),
{
    if b.len() == 0 {
        false
    } else if a.len() == 0 {
        true
    } else if a[0] < b[0] {
        true
    } else if a[0] > b[0] {
        false
    } else {
        lex_lt(a.skip(1), b.skip(1))
    }
}

/// `lex_lt` is a strict total order: asymmetric, and two strings neither of
/// which is below the other are equal.
pub proof fn lemma_lex_lt_total(a: Seq<u8>, b: Seq<u8>)
    ensures
        !(lex_lt(a, b) && lex_lt(b, a)),
        !lex_lt(a, b) && !lex_lt(b, a) ==> a == b,
    decreases a.len(),
{
    if b.len() == 0 || a.len() == 0 {
        if !lex_lt(a, b) && !lex_lt(b, a) {
            assert(a =~= b);
        }
    } else if a[0] == b[0] {
        lemma_lex_lt_total(a.skip(1), b.skip(1));
        if !lex_lt(a, b) && !lex_lt(b, a) {
            assert(a.skip(1) == b.skip(1));
            assert forall|i: int| 0 <= i < a.len() implies a[i] == b[i] by {
                if i > 0 {
                    assert(a[i] == a.skip(1)[i - 1]);
                    assert(b[i] == b.skip(1)[i - 1]);
                }
            }
            assert(a =~= b);
        }
    }
}

/// `lex_lt` is transitive.
pub proof fn lemma_lex_lt_trans(a: Seq<u8>, b: Seq<u8>, c: Seq<u8>)
    requires
        lex_lt(a, b),
        lex_lt(b, c),
    ensures
        lex_lt(a, c),
    decreases a.len(),
{
    if a.len() == 0 {
    } else {
        if a[0] == b[0] && b[0] == c[0] {
            lemma_lex_lt_trans(a.skip(1), b.skip(1), c.skip(1));
        }
    }
}

/// First position of `b` within `s[lo..hi]`, as an absolute index; `hi` when
/// `b` does not occur there.
pub fn scan_byte(s: &[u8], lo: usize, hi: usize, b: u8) -> (r: usize)
    requires
        lo <= hi <= s@.len(),
    ensures
        lo <= r <= hi,
        r - lo == pos_of(s@.subrange(lo as int, hi as int), b),
{
    let ghost sub = s@.subrange(lo as int, hi as int);
    let mut i: usize = lo;
    while i < hi
        invariant
            lo <= i <= hi <= s@.len(),
            sub == s@.subrange(lo as int, hi as int),
            forall|j: int| lo <= j < i ==> s@[j] != b,
        decreases hi - i,
    {
        if s[i] == b {
            proof {
                assert(sub[i - lo] == b);
                assert forall|j: int| 0 <= j < i - lo implies sub[j] != b by {
                    assert(sub[j] == s@[j + lo]);
                }
                lemma_pos_of_unique(sub, b, i - lo);
            }
            return i;
        }
        i = i + 1;
    }
    proof {
        assert forall|j: int| 0 <= j < sub.len() implies sub[j] != b by {
            assert(sub[j] == s@[j + lo]);
        }
        lemma_pos_of_absent(sub, b);
    }
    hi
}

/// Copy of `s[lo..hi]` as an owned vector.
pub fn sub_vec(s: &[u8], lo: usize, hi: usize) -> (r: Vec<u8>)
    requires
        lo <= hi <= s@.len(),
    ensures
        r@ == s@.subrange(lo as int, hi as int),
{
    let mut out: Vec<u8> = Vec::new();
    let mut i: usize = lo;
    while i < hi
        invariant
            lo <= i <= hi <= s@.len(),
            out@ == s@.subrange(lo as int, i as int),
        decreases hi - i,
    {
        out.push(s[i]);
        proof {
            assert(out@ =~= s@.subrange(lo as int, i + 1));
        }
        i = i + 1;
    }
    out
}

/// Whether two byte strings hold the same bytes.
pub fn bytes_eq(a: &[u8], b: &[u8]) -> (r: bool)
    ensures
        r == (a@ == b@),
{
    if a.len() != b.len() {
        proof {
            assert(a@.len() != b@.len());
        }
        return false;
    }
    let mut i: usize = 0;
    while i < a.len()
        invariant
            i <= a@.len(),
            a@.len() == b@.len(),
            forall|j: int| 0 <= j < i ==> a@[j] == b@[j],
        decreases a@.len() - i,
    {
        if a[i] != b[i] {
            return false;
        }
        i = i + 1;
    }
    proof {
        assert(a@ =~= b@);
    }
    true
}

/// Whether `a@` is lexicographically below `b@`.
pub fn bytes_lex_lt(a: &[u8], b: &[u8]) -> (r: bool)
    ensures
        r == lex_lt(a@, b@),
{
    let mut i: usize = 0;
    proof {
        assert(a@.skip(0) =~= a@);
        assert(b@.skip(0) =~= b@);
    }
    while i < a.len() && i < b.len()
        invariant
            i <= a@.len(),
            i <= b@.len(),
            forall|j: int| 0 <= j < i ==> a@[j] == b@[j],
            lex_lt(a@, b@) == lex_lt(a@.skip(i as int), b@.skip(i as int)),
        decreases a@.len() - i,
    {
        let x = a[i];
        let y = b[i];
        if x < y {
            proof {
                assert(a@.skip(i as int)[0] == x);
                assert(b@.skip(i as int)[0] == y);
            }
            return true;
        }
        if x > y {
            proof {
                assert(a@.skip(i as int)[0] == x);
                assert(b@.skip(i as int)[0] == y);
            }
            return false;
        }
        proof {
            assert(a@.skip(i as int)[0] == x);
            assert(b@.skip(i as int)[0] == y);
            assert(a@.skip(i as int).skip(1) =~= a@.skip(i + 1));
            assert(b@.skip(i as int).skip(1) =~= b@.skip(i + 1));
        }
        i = i + 1;
    }
    let r = a.len() < b.len();
    proof {
        let sa = a@.skip(i as int);
        let sb = b@.skip(i as int);
        assert(sa.len() == 0 || sb.len() == 0);
        assert(lex_lt(sa, sb) == (sb.len() > 0));
    }
    r
}

} // verus!
