//! The mathematical model: the numeric value of a limb sequence, both as an
//! unsigned magnitude and under the two's-complement reading, together with
//! the lemmas that relate values of prefixes, suffixes and the top bit.

use vstd::prelude::*;
use vstd::arithmetic::power2::{pow2, lemma_pow2_adds, lemma_pow2_pos, lemma2_to64};
use vstd::arithmetic::mul::{
    lemma_mul_inequality, lemma_mul_is_distributive_add, lemma_mul_is_distributive_sub,
    lemma_mul_is_associative, lemma_mul_nonnegative,
};

verus! {

/// Bits in one digit (limb).
pub const DIGIT_BITS: u32 = 32;

/// The weight of one digit position.
pub open spec fn base() -> nat {
    pow2(32)
}

/// Unsigned value of a limb sequence, least-significant digit first.
pub open spec fn uval(s: Seq<u32>) -> nat
    decreases s.len(),
{
    if s.len() == 0 {
        0
    } else {
        (s[0] + base() * uval(s.drop_first())) as nat
    }
}

/// Whether the two's-complement sign bit (top bit of the top digit) is set.
pub open spec fn top_set(s: Seq<u32>) -> bool {
    s.len() > 0 && s[s.len() - 1] >= 0x8000_0000
}

/// Signed (two's-complement) value of a limb sequence.
pub open spec fn ival(s: Seq<u32>) -> int {
    uval(s) - if top_set(s) {
        pow2(32 * s.len()) as int
    } else {
        0
    }
}

/// Smallest signed value representable in `n` digits.
pub open spec fn min_ival(n: nat) -> int {
    -(pow2((32 * n - 1) as nat) as int)
}

/// Largest signed value representable in `n` digits.
pub open spec fn max_ival(n: nat) -> int {
    pow2((32 * n - 1) as nat) - 1
}

pub proof fn lemma_base_value()
    ensures
        base() == 0x1_0000_0000,
        pow2(31) == 0x8000_0000,
{
    lemma2_to64();
}

pub proof fn lemma_uval_bound(s: Seq<u32>)
    ensures
        uval(s) < pow2(32 * s.len()),
    decreases s.len(),
{
    lemma_base_value();
    if s.len() == 0 {
        assert(pow2(0) == 1) by { lemma2_to64(); }
    } else {
        let rest = s.drop_first();
        lemma_uval_bound(rest);
        lemma_pow2_adds(32, 32 * rest.len());
        lemma_mul_inequality(uval(rest) as int, pow2(32 * rest.len()) - 1, base() as int);
        lemma_mul_is_distributive_sub(base() as int, pow2(32 * rest.len()) as int, 1);
    }
}

/// The value splits at any index into a low prefix and a scaled high suffix.
pub proof fn lemma_uval_split(s: Seq<u32>, i: int)
    requires
        0 <= i <= s.len(),
    ensures
        uval(s) == uval(s.take(i)) + pow2(32 * i as nat) * uval(s.skip(i)),
    decreases i,
{
    if i == 0 {
        assert(s.take(0).len() == 0);
        assert(s.skip(0) =~= s);
        assert(pow2(0) == 1) by { lemma2_to64(); }
        assert(uval(s) == uval(s.take(i)) + pow2(32 * i as nat) * uval(s.skip(i)))
            by (nonlinear_arith)
            requires
                pow2(32 * i as nat) == 1,
                uval(s.take(i)) == 0,
                uval(s.skip(i)) == uval(s),
        ;
    } else {
        let rest = s.drop_first();
        lemma_uval_split(rest, i - 1);
        assert(rest.take(i - 1) =~= s.take(i).drop_first());
        assert(rest.skip(i - 1) =~= s.skip(i));
        let p = pow2(32 * (i - 1) as nat) as int;
        let hi = uval(s.skip(i)) as int;
        let x = uval(s.take(i).drop_first()) as int;
        assert(uval(s) == s[0] + base() * uval(rest));
        assert(uval(rest) == x + p * hi);
        lemma_mul_is_distributive_add(base() as int, x, p * hi);
        lemma_mul_is_associative(base() as int, p, hi);
        lemma_pow2_adds(32, 32 * (i - 1) as nat);
        assert(pow2(32 * i as nat) == base() * p);
        assert(s.take(i)[0] == s[0]);
        assert(uval(s.take(i)) == s[0] + base() * x);
        assert(uval(s) == uval(s.take(i)) + pow2(32 * i as nat) * uval(s.skip(i)))
            by (nonlinear_arith)
            requires
                uval(s) == s[0] + base() * uval(s.drop_first()),
                uval(s.drop_first()) == x + p * hi,
                hi == uval(s.skip(i)),
                uval(s.take(i)) == s[0] + base() * x,
                pow2(32 * i as nat) == base() * p,
        ;
    }
}

/// Appending a digit adds its value at the next weight.
pub proof fn lemma_uval_push(s: Seq<u32>, d: u32)
    ensures
        uval(s.push(d)) == uval(s) + d * pow2(32 * s.len()),
{
    let t = s.push(d);
    lemma_uval_split(t, s.len() as int);
    assert(t.take(s.len() as int) =~= s);
    let tail = t.skip(s.len() as int);
    assert(tail.len() == 1);
    assert(tail[0] == d);
    assert(uval(tail.drop_first()) == 0);
    assert(base() * uval(tail.drop_first()) == 0) by (nonlinear_arith)
        requires
            uval(tail.drop_first()) == 0,
    ;
    assert(uval(tail) == d);
    lemma_base_value();
    assert(uval(s.push(d)) == uval(s) + d * pow2(32 * s.len())) by (nonlinear_arith)
        requires
            uval(s.push(d)) == uval(s) + pow2(32 * s.len()) * uval(t.skip(s.len() as int)),
            uval(t.skip(s.len() as int)) == d,
    ;
}

/// The value of a prefix grows by one weighted digit at a time.
pub proof fn lemma_uval_take_succ(s: Seq<u32>, i: int)
    requires
        0 <= i < s.len(),
    ensures
        uval(s.take(i + 1)) == uval(s.take(i)) + s[i] * pow2(32 * i as nat),
{
    assert(s.take(i + 1) =~= s.take(i).push(s[i]));
    lemma_uval_push(s.take(i), s[i]);
}

/// Unfolding the value of a suffix by one digit.
pub proof fn lemma_uval_skip_unfold(s: Seq<u32>, i: int)
    requires
        0 <= i < s.len(),
    ensures
        uval(s.skip(i)) == s[i] + base() * uval(s.skip(i + 1)),
{
    assert(s.skip(i).drop_first() =~= s.skip(i + 1));
    assert(s.skip(i)[0] == s[i]);
}

/// The value is zero exactly when every digit is zero.
pub proof fn lemma_uval_zero(s: Seq<u32>)
    ensures
        uval(s) == 0 <==> (forall|j: int| 0 <= j < s.len() ==> s[j] == 0),
    decreases s.len(),
{
    lemma_base_value();
    if s.len() > 0 {
        let rest = s.drop_first();
        lemma_uval_zero(rest);
        assert(uval(s) == (s[0] + base() * uval(rest)) as nat);
        if uval(s) == 0 {
            assert(uval(rest) == 0) by {
                if uval(rest) > 0 {
                    lemma_mul_inequality(1, uval(rest) as int, base() as int);
                }
            }
            assert forall|j: int| 0 <= j < s.len() implies s[j] == 0 by {
                if j >= 1 {
                    assert(s[j] == rest[j - 1]);
                }
            }
        }
        if forall|j: int| 0 <= j < s.len() ==> s[j] == 0 {
            assert forall|j: int| 0 <= j < rest.len() implies rest[j] == 0 by {
                assert(rest[j] == s[j + 1]);
            }
            assert(uval(rest) == 0);
        }
    }
}

/// The parity of the value is the parity of the lowest digit.
pub proof fn lemma_uval_parity(s: Seq<u32>)
    requires
        s.len() > 0,
    ensures
        uval(s) % 2 == s[0] % 2,
{
    lemma_base_value();
    let r = uval(s.drop_first()) as int;
    assert(pow2(31) * 2 == base()) by {
        lemma_pow2_adds(31, 1);
        assert(pow2(1) == 2) by { lemma2_to64(); }
    }
    assert(base() * r == 2 * (pow2(31) * r)) by (nonlinear_arith)
        requires
            base() == pow2(31) * 2,
    ;
    vstd::arithmetic::div_mod::lemma_mod_multiples_vanish(pow2(31) * r, s[0] as int, 2);
}

/// If two equally long sequences agree above position `i` and differ there,
/// the one with the smaller digit has the smaller value.
pub proof fn lemma_uval_lt(a: Seq<u32>, b: Seq<u32>, i: int)
    requires
        a.len() == b.len(),
        0 <= i < a.len(),
        forall|j: int| i < j < a.len() ==> a[j] == b[j],
        a[i] < b[i],
    ensures
        uval(a) < uval(b),
{
    lemma_uval_split(a, i);
    lemma_uval_split(b, i);
    lemma_uval_skip_unfold(a, i);
    lemma_uval_skip_unfold(b, i);
    assert(a.skip(i + 1) =~= b.skip(i + 1));
    lemma_uval_bound(a.take(i));
    lemma_uval_bound(b.take(i));
    let p = pow2(32 * i as nat) as int;
    assert(uval(a) < uval(b)) by (nonlinear_arith)
        requires
            uval(a) == uval(a.take(i)) + p * uval(a.skip(i)),
            uval(b) == uval(b.take(i)) + p * uval(b.skip(i)),
            uval(a.skip(i)) < uval(b.skip(i)),
            uval(a.take(i)) < p,
            uval(b.take(i)) >= 0,
            p > 0,
    ;
}

/// The absolute value.
pub open spec fn iabs(a: int) -> int {
    if a < 0 {
        -a
    } else {
        a
    }
}

/// Truncating division: the quotient is the magnitude quotient with the
/// product of the signs.
pub open spec fn tdiv(a: int, b: int) -> int {
    if (a < 0) == (b < 0) {
        iabs(a) / iabs(b)
    } else {
        -(iabs(a) / iabs(b))
    }
}

/// Truncating remainder: carries the sign of the dividend.
pub open spec fn tmod(a: int, b: int) -> int {
    if a < 0 {
        -(iabs(a) % iabs(b))
    } else {
        a % iabs(b)
    }
}

/// Euclidean division: the remainder is never negative.
pub open spec fn ediv(a: int, b: int) -> int {
    if b > 0 {
        a / b
    } else {
        -(a / -b)
    }
}

/// Euclidean remainder: in `[0, |b|)`.
pub open spec fn erem(a: int, b: int) -> int {
    a % iabs(b)
}

/// Division and remainder of a negated dividend by a positive divisor.
pub proof fn lemma_div_neg(a: int, b: int)
    requires
        a >= 0,
        b > 0,
    ensures
        (-a) / b == (if a % b == 0 { -(a / b) } else { -(a / b) - 1 }),
        (-a) % b == (if a % b == 0 { 0int } else { b - (a % b) }),
{
    vstd::arithmetic::div_mod::lemma_fundamental_div_mod(a, b);
    let q = a / b;
    let r = a % b;
    if r == 0 {
        assert(b * (-q) == -(b * q)) by (nonlinear_arith);
        vstd::arithmetic::div_mod::lemma_fundamental_div_mod_converse(-a, b, -q, 0);
    } else {
        assert(b * (-q - 1) == -(b * q) - b) by (nonlinear_arith);
        vstd::arithmetic::div_mod::lemma_fundamental_div_mod_converse(-a, b, -q - 1, b - r);
    }
}

/// A quotient by a positive divisor is at most the dividend.
pub proof fn lemma_div_le(a: int, b: int)
    requires
        a >= 0,
        b >= 1,
    ensures
        0 <= a / b <= a,
{
    vstd::arithmetic::div_mod::lemma_fundamental_div_mod(a, b);
    assert(0 <= a / b <= a) by (nonlinear_arith)
        requires
            a == b * (a / b) + a % b,
            0 <= a % b,
            b >= 1,
            a >= 0,
    ;
}

/// The sign bit is set exactly when the value reaches half the range.
pub proof fn lemma_top_set_iff(s: Seq<u32>)
    requires
        s.len() > 0,
    ensures
        top_set(s) <==> uval(s) >= pow2((32 * s.len() - 1) as nat),
{
    let n = s.len() as int;
    let low = s.take(n - 1);
    let hi = s.skip(n - 1);
    lemma_uval_split(s, n - 1);
    assert(hi.len() == 1);
    assert(hi[0] == s[n - 1]);
    assert(uval(hi.drop_first()) == 0);
    assert(uval(hi) == s[n - 1]);
    lemma_uval_bound(low);
    lemma_base_value();
    let p = pow2(32 * (n - 1) as nat);
    // pow2(32n - 1) == p * pow2(31)
    lemma_pow2_adds(32 * (n - 1) as nat, 31);
    if s[n - 1] >= 0x8000_0000 {
        lemma_mul_inequality(0x8000_0000, s[n - 1] as int, p as int);
        assert(p * s[n - 1] >= p * 0x8000_0000) by {
            lemma_mul_inequality(0x8000_0000, s[n - 1] as int, p as int);
        }
    } else {
        // uval(s) <= p - 1 + p * (2^31 - 1) < p * 2^31
        lemma_mul_inequality(s[n - 1] as int, 0x8000_0000 - 1, p as int);
        lemma_mul_is_distributive_sub(p as int, 0x8000_0000, 1);
    }
}

/// The signed value is a bijection onto [-2^(W-1), 2^(W-1) - 1].
pub proof fn lemma_ival_range(s: Seq<u32>)
    requires
        s.len() > 0,
    ensures
        min_ival(s.len()) <= ival(s) <= max_ival(s.len()),
{
    lemma_top_set_iff(s);
    lemma_uval_bound(s);
    lemma_pow2_adds((32 * s.len() - 1) as nat, 1);
    assert(pow2(1) == 2) by { lemma2_to64(); }
}

} // verus!
