//! Decimal digit strings: their numeric values, the canonical (no leading
//! zero) form of a number, and executable conversions in both directions.

use crate::text::{lex_lt, NINE, ZERO};
use vstd::prelude::*;

verus! {

/// A decimal digit byte.
pub open spec fn is_digit(b: u8) -> bool {
    ZERO <= b <= NINE
}

/// Every byte of `s` is a decimal digit.
pub open spec fn all_digits(s: Seq<u8>) -> bool {
    forall|i: int| 0 <= i < s.len() ==> is_digit(#[trigger] s[i])
}

/// Canonical decimal form of a number: non-empty, digits only, and no
/// leading zero (so `0` itself is the only form starting with `0`).
pub open spec fn is_canonical_number(s: Seq<u8>) -> bool {
    &&& s.len() > 0
    &&& all_digits(s)
    &&& (s[0] == ZERO ==> s.len() == 1)
}

/// Numeric value of a digit string, most significant digit first.
pub open spec fn dec_val(s: Seq<u8>) -> nat
    decreases s.len(),
{
    if s.len() == 0 {
        0
    } else {
        (dec_val(s.drop_last()) * 10 + (s.last() - ZERO)) as nat
    }
}

/// The canonical decimal digit string of `n`.
pub open spec fn dec_of(n: nat) -> Seq<u8>
    decreases n,
{
    if n < 10 {
        seq![(n + ZERO) as u8]
    } else {
        dec_of(n / 10).push((n % 10 + ZERO) as u8)
    }
}

/// Ten to the power `e`.
pub open spec fn pow10(e: nat) -> nat
    decreases e,
{
    if e == 0 {
        1
    } else {
        10 * pow10((e - 1) as nat)
    }
}

proof fn lemma_all_digits_drop_last(s: Seq<u8>)
    requires
        s.len() > 0,
        all_digits(s),
    ensures
        all_digits(s.drop_last()),
{
    assert forall|i: int| 0 <= i < s.drop_last().len() implies is_digit(
        #[trigger] s.drop_last()[i],
    ) by {
        assert(s.drop_last()[i] == s[i]);
    }
}

/// A digit string with a non-zero leading digit has a positive value.
pub proof fn lemma_dec_val_pos(s: Seq<u8>)
    requires
        s.len() > 0,
        all_digits(s),
        s[0] != ZERO,
    ensures
        dec_val(s) >= 1,
    decreases s.len(),
{
    if s.len() == 1 {
        assert(s.last() == s[0]);
        assert(s.drop_last() =~= Seq::<u8>::empty());
        assert(dec_val(Seq::<u8>::empty()) == 0);
    } else {
        lemma_all_digits_drop_last(s);
        assert(s.drop_last()[0] == s[0]);
        lemma_dec_val_pos(s.drop_last());
    }
}

/// `dec_of(n)` is canonical and evaluates back to `n`.
pub proof fn lemma_dec_of_canonical(n: nat)
    ensures
        is_canonical_number(dec_of(n)),
        dec_val(dec_of(n)) == n,
    decreases n,
{
    if n < 10 {
        let s = dec_of(n);
        assert(s == seq![(n + ZERO) as u8]);
        assert(s.drop_last() =~= Seq::<u8>::empty());
        assert(dec_val(Seq::<u8>::empty()) == 0);
        assert(s.last() == s[0]);
        assert(dec_val(s) == n);
    } else {
        lemma_dec_of_canonical(n / 10);
        vstd::arithmetic::div_mod::lemma_fundamental_div_mod(n as int, 10);
        vstd::arithmetic::div_mod::lemma_mod_bound(n as int, 10);
        let p = dec_of(n / 10);
        let d = (n % 10 + ZERO) as u8;
        let s = p.push(d);
        assert(n / 10 >= 1);
        if p[0] == ZERO {
            assert(p.len() == 1);
            assert(p.last() == p[0]);
            assert(p.drop_last() =~= Seq::<u8>::empty());
            assert(dec_val(Seq::<u8>::empty()) == 0);
            assert(dec_val(p) == 0);
            assert(false);
        }
        assert(s.drop_last() =~= p);
        assert(s.last() == d);
        assert(dec_val(s) == dec_val(p) * 10 + (d - ZERO));
        assert(dec_val(s) == n);
        assert forall|i: int| 0 <= i < s.len() implies is_digit(#[trigger] s[i]) by {
            if i < p.len() {
                assert(s[i] == p[i]);
            } else {
                assert(s[i] == d);
            }
        }
        assert(s[0] == p[0]);
    }
}

/// A canonical digit string is recovered from its value.
pub proof fn lemma_canonical_roundtrip(s: Seq<u8>)
    requires
        is_canonical_number(s),
    ensures
        dec_of(dec_val(s)) == s,
    decreases s.len(),
{
    if s.len() == 1 {
        assert(s.last() == s[0]);
        assert(s.drop_last() =~= Seq::<u8>::empty());
        assert(dec_val(Seq::<u8>::empty()) == 0);
        assert(is_digit(s[0]));
        assert(dec_val(s) == s[0] - ZERO);
        assert(dec_of(dec_val(s)) =~= s);
    } else {
        let p = s.drop_last();
        let d = s.last();
        lemma_all_digits_drop_last(s);
        assert(p[0] == s[0]);
        assert(p[0] != ZERO);
        lemma_dec_val_pos(p);
        lemma_canonical_roundtrip(p);
        let v = dec_val(s);
        assert(v == dec_val(p) * 10 + (d - ZERO));
        assert(is_digit(d));
        vstd::arithmetic::div_mod::lemma_fundamental_div_mod_converse(
            v as int,
            10,
            dec_val(p) as int,
            (d - ZERO) as int,
        );
        assert(v >= 10);
        assert(dec_of(v) == dec_of(v / 10).push((v % 10 + ZERO) as u8));
        assert(dec_of(v) =~= s);
    }
}

/// `pow10` grows monotonically with the exponent.
pub proof fn lemma_pow10_monotone(e1: nat, e2: nat)
    requires
        e1 <= e2,
    ensures
        pow10(e1) <= pow10(e2),
    decreases e2,
{
    if e1 < e2 {
        lemma_pow10_monotone(e1, (e2 - 1) as nat);
        assert(pow10(e2) == 10 * pow10((e2 - 1) as nat));
    }
}

/// A digit string's value is below ten to its length.
pub proof fn lemma_dec_val_upper(s: Seq<u8>)
    requires
        all_digits(s),
    ensures
        dec_val(s) < pow10(s.len()),
    decreases s.len(),
{
    if s.len() == 0 {
    } else {
        lemma_all_digits_drop_last(s);
        lemma_dec_val_upper(s.drop_last());
        assert(is_digit(s.last()));
        assert(pow10(s.len()) == 10 * pow10((s.len() - 1) as nat));
    }
}

/// A digit string with a non-zero leading digit reaches ten to one less
/// than its length.
pub proof fn lemma_dec_val_lower(s: Seq<u8>)
    requires
        s.len() > 0,
        all_digits(s),
        s[0] != ZERO,
    ensures
        dec_val(s) >= pow10((s.len() - 1) as nat),
    decreases s.len(),
{
    if s.len() == 1 {
        assert(s.last() == s[0]);
        assert(s.drop_last() =~= Seq::<u8>::empty());
        assert(dec_val(Seq::<u8>::empty()) == 0);
    } else {
        lemma_all_digits_drop_last(s);
        assert(s.drop_last()[0] == s[0]);
        lemma_dec_val_lower(s.drop_last());
        assert(pow10((s.len() - 1) as nat) == 10 * pow10((s.len() - 2) as nat));
    }
}

/// Of two canonical digit strings, the shorter has the smaller value.
pub proof fn lemma_shorter_smaller(a: Seq<u8>, b: Seq<u8>)
    requires
        is_canonical_number(a),
        is_canonical_number(b),
        a.len() < b.len(),
    ensures
        dec_val(a) < dec_val(b),
{
    lemma_dec_val_upper(a);
    assert(b[0] != ZERO);
    lemma_dec_val_lower(b);
    lemma_pow10_monotone(a.len(), (b.len() - 1) as nat);
}

/// The value of a digit string, read from the front: the leading digit
/// weighted by ten to the rest's length, plus the rest's value.
pub proof fn lemma_dec_val_front(s: Seq<u8>)
    requires
        s.len() > 0,
        all_digits(s),
    ensures
        dec_val(s) == (s[0] - ZERO) * pow10((s.len() - 1) as nat) + dec_val(s.skip(1)),
    decreases s.len(),
{
    if s.len() == 1 {
        assert(s.last() == s[0]);
        assert(s.drop_last() =~= Seq::<u8>::empty());
        assert(s.skip(1) =~= Seq::<u8>::empty());
        assert(dec_val(Seq::<u8>::empty()) == 0);
        assert(is_digit(s[0]));
        assert(pow10(0) == 1);
        assert(dec_val(s) == s[0] - ZERO);
    } else {
        let p = s.drop_last();
        lemma_all_digits_drop_last(s);
        lemma_dec_val_front(p);
        assert(p.len() == s.len() - 1);
        assert(p[0] == s[0]);
        assert(is_digit(s.last()));
        assert(s.skip(1).drop_last() =~= p.skip(1));
        assert(s.skip(1).last() == s.last());
        assert(s.skip(1).len() > 0);
        assert(dec_val(s.skip(1)) == dec_val(p.skip(1)) * 10 + (s.last() - ZERO));
        let a = s[0] - ZERO;
        let pw = pow10((s.len() - 2) as nat) as int;
        assert(pow10((s.len() - 1) as nat) == 10 * pow10((s.len() - 2) as nat));
        assert(dec_val(s) == dec_val(p) * 10 + (s.last() - ZERO));
        assert(dec_val(p) == a * pow10((p.len() - 1) as nat) + dec_val(p.skip(1)));
        assert(dec_val(p) == a * pw + dec_val(p.skip(1)));
        assert((a * pw + dec_val(p.skip(1))) * 10 == a * (10 * pw) + dec_val(p.skip(1)) * 10)
            by (nonlinear_arith);
        assert(dec_val(s) == a * (10 * pw) + dec_val(p.skip(1)) * 10 + (s.last() - ZERO));
        assert(dec_val(s) == a * pow10((s.len() - 1) as nat) + dec_val(s.skip(1)));
    }
}

/// On equal-length digit strings, lexicographic order is numeric order.
pub proof fn lemma_equal_len_compare(a: Seq<u8>, b: Seq<u8>)
    requires
        a.len() == b.len(),
        all_digits(a),
        all_digits(b),
    ensures
        (dec_val(a) < dec_val(b)) <==> lex_lt(a, b),
    decreases a.len(),
{
    if a.len() == 0 {
    } else {
        lemma_dec_val_front(a);
        lemma_dec_val_front(b);
        let pw = pow10((a.len() - 1) as nat) as int;
        let ra = dec_val(a.skip(1)) as int;
        let rb = dec_val(b.skip(1)) as int;
        assert forall|i: int| 0 <= i < a.skip(1).len() implies is_digit(#[trigger] a.skip(1)[i]) by {
            assert(a.skip(1)[i] == a[i + 1]);
        }
        assert forall|i: int| 0 <= i < b.skip(1).len() implies is_digit(#[trigger] b.skip(1)[i]) by {
            assert(b.skip(1)[i] == b[i + 1]);
        }
        lemma_dec_val_upper(a.skip(1));
        lemma_dec_val_upper(b.skip(1));
        assert(ra < pw && rb < pw);
        if a[0] < b[0] {
            assert((a[0] - ZERO) * pw + pw <= (b[0] - ZERO) * pw) by (nonlinear_arith)
                requires
                    a[0] < b[0],
                    pw >= 0,
            ;
        } else if a[0] > b[0] {
            assert((b[0] - ZERO) * pw + pw <= (a[0] - ZERO) * pw) by (nonlinear_arith)
                requires
                    a[0] > b[0],
                    pw >= 0,
            ;
        } else {
            lemma_equal_len_compare(a.skip(1), b.skip(1));
        }
    }
}

/// The value of one more digit appended onto a prefix.
proof fn lemma_dec_val_take_step(s: Seq<u8>, i: int)
    requires
        0 <= i < s.len(),
        is_digit(s[i]),
    ensures
        dec_val(s.take(i + 1)) == dec_val(s.take(i)) * 10 + (s[i] - ZERO),
{
    assert(s.take(i + 1).drop_last() =~= s.take(i));
    assert(s.take(i + 1).last() == s[i]);
    assert(dec_val(s.take(i + 1)) == (dec_val(s.take(i)) * 10 + (s[i] - ZERO)) as nat);
}

/// A prefix of a digit string never exceeds the whole string's value.
proof fn lemma_dec_val_take_mono(s: Seq<u8>, i: int)
    requires
        0 <= i <= s.len(),
        all_digits(s),
    ensures
        dec_val(s.take(i)) <= dec_val(s),
    decreases s.len() - i,
{
    if i == s.len() {
        assert(s.take(i) =~= s);
    } else {
        lemma_dec_val_take_step(s, i);
        assert(is_digit(s[i]));
        lemma_dec_val_take_mono(s, i + 1);
    }
}

/// Whether every byte of `s` is a decimal digit.
pub fn all_digits_exec(s: &[u8]) -> (r: bool)
    ensures
        r == all_digits(s@),
{
    let mut i: usize = 0;
    while i < s.len()
        invariant
            i <= s@.len(),
            forall|j: int| 0 <= j < i ==> is_digit(#[trigger] s@[j]),
        decreases s@.len() - i,
    {
        if s[i] < ZERO || s[i] > NINE {
            return false;
        }
        i = i + 1;
    }
    true
}

/// Whether `s` is the canonical decimal form of a number.
pub fn canonical_number_exec(s: &[u8]) -> (r: bool)
    ensures
        r == is_canonical_number(s@),
{
    if s.len() == 0 {
        return false;
    }
    if !all_digits_exec(s) {
        return false;
    }
    if s[0] == ZERO && s.len() != 1 {
        return false;
    }
    true
}

/// The value of a digit string as a `u64`, or `None` when it exceeds
/// `u64::MAX`.
pub fn parse_u64(s: &[u8]) -> (r: Option<u64>)
    requires
        s@.len() > 0,
        all_digits(s@),
    ensures
        match r {
            Some(v) => v == dec_val(s@) && dec_val(s@) <= u64::MAX,
            None => dec_val(s@) > u64::MAX,
        },
{
    let mut acc: u64 = 0;
    let mut i: usize = 0;
    proof {
        assert(s@.take(0) =~= Seq::<u8>::empty());
    }
    while i < s.len()
        invariant
            i <= s@.len(),
            all_digits(s@),
            acc == dec_val(s@.take(i as int)),
        decreases s@.len() - i,
    {
        assert(is_digit(s@[i as int]));
        let d = s[i] - ZERO;
        proof {
            lemma_dec_val_take_step(s@, i as int);
        }
        if acc > (u64::MAX - d as u64) / 10 {
            proof {
                vstd::arithmetic::div_mod::lemma_fundamental_div_mod(
                    u64::MAX - d as u64,
                    10,
                );
                vstd::arithmetic::div_mod::lemma_mod_bound(u64::MAX - d as u64, 10);
                assert(dec_val(s@.take(i + 1)) > u64::MAX);
                lemma_dec_val_take_mono(s@, i + 1);
            }
            return None;
        }
        proof {
            vstd::arithmetic::div_mod::lemma_fundamental_div_mod(u64::MAX - d as u64, 10);
            vstd::arithmetic::div_mod::lemma_mod_bound(u64::MAX - d as u64, 10);
            assert(acc * 10 + d <= u64::MAX);
        }
        acc = acc * 10 + d as u64;
        i = i + 1;
    }
    proof {
        assert(s@.take(i as int) =~= s@);
    }
    Some(acc)
}

/// The canonical decimal digit string of `n`.
pub fn u64_to_dec(n: u64) -> (r: Vec<u8>)
    ensures
        r@ == dec_of(n as nat),
{
    if n == 0 {
        let mut out: Vec<u8> = Vec::new();
        out.push(ZERO);
        proof {
            assert(out@ =~= dec_of(0));
        }
        return out;
    }
    let mut rev: Vec<u8> = Vec::new();
    let mut m: u64 = n;
    proof {
        assert(Seq::<u8>::empty().reverse() =~= Seq::<u8>::empty());
    }
    while m > 0
        invariant
            m > 0 ==> dec_of(n as nat) == dec_of(m as nat) + rev@.reverse(),
            m == 0 ==> dec_of(n as nat) == rev@.reverse(),
        decreases m,
    {
        proof {
            vstd::arithmetic::div_mod::lemma_fundamental_div_mod(m as int, 10);
            vstd::arithmetic::div_mod::lemma_mod_bound(m as int, 10);
        }
        let d = (m % 10) as u8 + ZERO;
        let ghost old_rev = rev@;
        rev.push(d);
        proof {
            assert(rev@.reverse() =~= seq![d] + old_rev.reverse());
            if m >= 10 {
                assert(dec_of(m as nat) == dec_of((m as nat) / 10).push(d));
                assert(dec_of((m as nat) / 10).push(d) =~= dec_of((m as nat) / 10) + seq![d]);
                assert(dec_of((m as nat) / 10) + seq![d] + old_rev.reverse() =~= dec_of(
                    (m as nat) / 10,
                ) + (seq![d] + old_rev.reverse()));
            } else {
                assert(dec_of(m as nat) == seq![d]);
                assert(seq![d] + old_rev.reverse() =~= rev@.reverse());
            }
            assert((m as nat) / 10 == (m / 10) as nat);
        }
        m = m / 10;
    }
    let mut out: Vec<u8> = Vec::new();
    let mut i: usize = rev.len();
    while i > 0
        invariant
            i <= rev@.len(),
            out@.len() == rev@.len() - i,
            forall|j: int| 0 <= j < out@.len() ==> out@[j] == rev@[rev@.len() - 1 - j],
        decreases i,
    {
        i = i - 1;
        out.push(rev[i]);
    }
    proof {
        assert(out@ =~= rev@.reverse());
    }
    out
}

} // verus!
