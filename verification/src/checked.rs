//! Checked arithmetic: each operation returns a value exactly when the true
//! mathematical result is representable at the fixed width, and reports
//! absence of a result otherwise.

use vstd::prelude::*;
use vstd::arithmetic::power2::{pow2, lemma_pow2_adds, lemma_pow2_pos, lemma2_to64};
use crate::signed::BInt;
use crate::uint::BUint;
use crate::vals::{min_ival, max_ival, iabs, tdiv, tmod, ediv, erem, lemma_div_neg, lemma_div_le,
    lemma_ival_range, lemma_top_set_iff, lemma_uval_bound, top_set, uval};

verus! {

/// The facts every signed division derives from the magnitude division:
/// bounds of the magnitudes and of their quotient and remainder.
proof fn lemma_mag_div_bounds(av: int, bv: int, qv: int, rv: int, h: int)
    requires
        0 <= av <= h,
        1 <= bv <= h,
        qv == av / bv,
        rv == av % bv,
        h >= 4,
    ensures
        0 <= qv <= av,
        0 <= rv < bv,
        qv >= h ==> av == h && bv == 1 && qv == h && rv == 0,
        bv == 1 ==> qv == av && rv == 0,
        bv >= 2 ==> qv <= h / 2,
{
    lemma_div_le(av, bv);
    vstd::arithmetic::div_mod::lemma_fundamental_div_mod(av, bv);
    if qv >= h {
        assert(av == h && bv == 1 && qv == h && rv == 0) by (nonlinear_arith)
            requires
                av == bv * qv + rv,
                qv >= h,
                0 <= rv < bv,
                av <= h,
                bv >= 1,
                h >= 4,
        ;
    }
    if bv == 1 {
        assert(qv == av && rv == 0) by (nonlinear_arith)
            requires
                av == bv * qv + rv,
                bv == 1,
                0 <= rv < bv,
        ;
    }
    if bv >= 2 {
        assert(qv <= h / 2) by {
            vstd::arithmetic::div_mod::lemma_div_is_ordered_by_denominator(av, 2, bv);
            vstd::arithmetic::div_mod::lemma_div_is_ordered(av, h, 2);
        }
    }
}

impl BInt {
    /// Sum, if it is representable.
    pub fn checked_add(&self, rhs: &BInt) -> (r: Option<BInt>)
        requires
            self.wf(),
            rhs.wf(),
            self.n() == rhs.n(),
        ensures
            r is Some <==> min_ival(self.n()) <= self.ival() + rhs.ival() <= max_ival(self.n()),
            r matches Some(v) ==> v.wf() && v.n() == self.n()
                && v.ival() == self.ival() + rhs.ival(),
    {
        let (v, o) = self.overflowing_add(rhs);
        if o {
            None
        } else {
            Some(v)
        }
    }

    /// Sum with an unsigned magnitude, if it is representable.
    pub fn checked_add_unsigned(&self, rhs: &BUint) -> (r: Option<BInt>)
        requires
            self.wf(),
            rhs.wf(),
            self.n() == rhs.n(),
        ensures
            r is Some <==> min_ival(self.n()) <= self.ival() + rhs.uval() <= max_ival(self.n()),
            r matches Some(v) ==> v.wf() && v.n() == self.n()
                && v.ival() == self.ival() + rhs.uval(),
    {
        let (v, o) = self.overflowing_add_unsigned(rhs);
        if o {
            None
        } else {
            Some(v)
        }
    }

    /// Difference, if it is representable.
    pub fn checked_sub(&self, rhs: &BInt) -> (r: Option<BInt>)
        requires
            self.wf(),
            rhs.wf(),
            self.n() == rhs.n(),
        ensures
            r is Some <==> min_ival(self.n()) <= self.ival() - rhs.ival() <= max_ival(self.n()),
            r matches Some(v) ==> v.wf() && v.n() == self.n()
                && v.ival() == self.ival() - rhs.ival(),
    {
        let (v, o) = self.overflowing_sub(rhs);
        if o {
            None
        } else {
            Some(v)
        }
    }

    /// Difference with an unsigned magnitude, if it is representable.
    pub fn checked_sub_unsigned(&self, rhs: &BUint) -> (r: Option<BInt>)
        requires
            self.wf(),
            rhs.wf(),
            self.n() == rhs.n(),
        ensures
            r is Some <==> min_ival(self.n()) <= self.ival() - rhs.uval() <= max_ival(self.n()),
            r matches Some(v) ==> v.wf() && v.n() == self.n()
                && v.ival() == self.ival() - rhs.uval(),
    {
        let (v, o) = self.overflowing_sub_unsigned(rhs);
        if o {
            None
        } else {
            Some(v)
        }
    }

    /// Negation: absent exactly for the minimum value.
    pub fn checked_neg(&self) -> (r: Option<BInt>)
        requires
            self.wf(),
        ensures
            r is Some <==> self.ival() != min_ival(self.n()),
            r matches Some(v) ==> v.wf() && v.n() == self.n() && v.ival() == -self.ival(),
    {
        let (v, o) = self.overflowing_neg();
        if o {
            None
        } else {
            Some(v)
        }
    }

    /// Absolute value: absent exactly for the minimum value.
    pub fn checked_abs(&self) -> (r: Option<BInt>)
        requires
            self.wf(),
        ensures
            r is Some <==> self.ival() != min_ival(self.n()),
            r matches Some(v) ==> v.wf() && v.n() == self.n()
                && v.ival() == (if self.ival() < 0 { -self.ival() } else { self.ival() }),
    {
        proof {
            vstd::arithmetic::power2::lemma_pow2_pos((32 * self.n() - 1) as nat);
        }
        if self.is_negative() {
            self.checked_neg()
        } else {
            Some(self.dup())
        }
    }
}

impl BInt {
    /// Truncating division: absent when the divisor is zero or the quotient
    /// of the minimum value by minus one would overflow.
    pub fn checked_div(&self, rhs: &BInt) -> (r: Option<BInt>)
        requires
            self.wf(),
            rhs.wf(),
            self.n() == rhs.n(),
            self.n() < crate::uint::MAX_DIGITS,
        ensures
            r is Some <==> rhs.ival() != 0
                && !(self.ival() == min_ival(self.n()) && rhs.ival() == -1),
            r matches Some(v) ==> v.wf() && v.n() == self.n()
                && v.ival() == tdiv(self.ival(), rhs.ival()),
    {
        if rhs.is_zero() {
            return None;
        }
        let ua = self.unsigned_abs();
        let ub = rhs.unsigned_abs();
        let (q, _rm) = ua.divmod(&ub);
        let sign_neg = self.is_negative() != rhs.is_negative();
        proof {
            lemma_ival_range(self.uint.digits@);
            lemma_ival_range(rhs.uint.digits@);
            lemma_top_set_iff(q.digits@);
            lemma_pow2_pos((32 * self.n() - 1) as nat);
            lemma_pow2_adds((32 * self.n() - 1) as nat, 1);
            assert(pow2(1) == 2 && pow2(2) == 4) by { lemma2_to64(); }
            vstd::arithmetic::power2::lemma_pow2_strictly_increases(2, (32 * self.n() - 1) as nat);
            lemma_mag_div_bounds(ua.uval() as int, ub.uval() as int, q.uval() as int,
                _rm.uval() as int, pow2((32 * self.n() - 1) as nat) as int);
        }
        if !sign_neg {
            if q.top_bit() {
                // the quotient reaches the sign bit only for MIN / -1
                return None;
            }
            Some(BInt::from_bits(q))
        } else {
            let nq = q.wrapping_neg_mag();
            proof {
                lemma_top_set_iff(nq.digits@);
            }
            Some(BInt::from_bits(nq))
        }
    }

    /// Truncating remainder, with the dividend's sign: absent exactly when
    /// truncating division is.
    pub fn checked_rem(&self, rhs: &BInt) -> (r: Option<BInt>)
        requires
            self.wf(),
            rhs.wf(),
            self.n() == rhs.n(),
            self.n() < crate::uint::MAX_DIGITS,
        ensures
            r is Some <==> rhs.ival() != 0
                && !(self.ival() == min_ival(self.n()) && rhs.ival() == -1),
            r matches Some(v) ==> v.wf() && v.n() == self.n()
                && v.ival() == tmod(self.ival(), rhs.ival()),
    {
        if rhs.is_zero() {
            return None;
        }
        let ua = self.unsigned_abs();
        let ub = rhs.unsigned_abs();
        let (q, rm) = ua.divmod(&ub);
        let sign_neg = self.is_negative() != rhs.is_negative();
        proof {
            lemma_ival_range(self.uint.digits@);
            lemma_ival_range(rhs.uint.digits@);
            lemma_top_set_iff(q.digits@);
            lemma_pow2_pos((32 * self.n() - 1) as nat);
            lemma_pow2_adds((32 * self.n() - 1) as nat, 1);
            assert(pow2(1) == 2 && pow2(2) == 4) by { lemma2_to64(); }
            vstd::arithmetic::power2::lemma_pow2_strictly_increases(2, (32 * self.n() - 1) as nat);
            lemma_mag_div_bounds(ua.uval() as int, ub.uval() as int, q.uval() as int,
                rm.uval() as int, pow2((32 * self.n() - 1) as nat) as int);
        }
        if !sign_neg && q.top_bit() {
            return None;
        }
        if self.is_negative() {
            let nr = rm.wrapping_neg_mag();
            proof {
                lemma_top_set_iff(nr.digits@);
            }
            Some(BInt::from_bits(nr))
        } else {
            proof {
                lemma_top_set_iff(rm.digits@);
            }
            Some(BInt::from_bits(rm))
        }
    }

    /// Euclidean division: the quotient such that the remainder is never
    /// negative; absent exactly when truncating division is.
    pub fn checked_div_euclid(&self, rhs: &BInt) -> (r: Option<BInt>)
        requires
            self.wf(),
            rhs.wf(),
            self.n() == rhs.n(),
            self.n() < crate::uint::MAX_DIGITS,
        ensures
            r is Some <==> rhs.ival() != 0
                && !(self.ival() == min_ival(self.n()) && rhs.ival() == -1),
            r matches Some(v) ==> v.wf() && v.n() == self.n()
                && v.ival() == ediv(self.ival(), rhs.ival()),
    {
        if rhs.is_zero() {
            return None;
        }
        let ua = self.unsigned_abs();
        let ub = rhs.unsigned_abs();
        let (q, rm) = ua.divmod(&ub);
        let na = self.is_negative();
        let nb = rhs.is_negative();
        let rm_zero = rm.is_zero();
        proof {
            lemma_ival_range(self.uint.digits@);
            lemma_ival_range(rhs.uint.digits@);
            lemma_top_set_iff(q.digits@);
            lemma_pow2_pos((32 * self.n() - 1) as nat);
            lemma_pow2_adds((32 * self.n() - 1) as nat, 1);
            assert(pow2(1) == 2 && pow2(2) == 4) by { lemma2_to64(); }
            vstd::arithmetic::power2::lemma_pow2_strictly_increases(2, (32 * self.n() - 1) as nat);
            lemma_mag_div_bounds(ua.uval() as int, ub.uval() as int, q.uval() as int,
                rm.uval() as int, pow2((32 * self.n() - 1) as nat) as int);
            if na {
                lemma_div_neg(ua.uval() as int, ub.uval() as int);
            }
        }
        if na == nb && q.top_bit() {
            return None;
        }
        let qe = if na && !rm_zero {
            proof {
                lemma_uval_bound(q.digits@);
                lemma_top_set_iff(q.digits@);
                lemma_pow2_pos((32 * self.n() - 1) as nat);
            }
            q.add_one()
        } else {
            q
        };
        if na == nb {
            proof {
                lemma_top_set_iff(qe.digits@);
            }
            Some(BInt::from_bits(qe))
        } else {
            let nq = qe.wrapping_neg_mag();
            proof {
                lemma_top_set_iff(nq.digits@);
            }
            Some(BInt::from_bits(nq))
        }
    }

    /// Euclidean remainder: never negative; absent exactly when truncating
    /// division is.
    pub fn checked_rem_euclid(&self, rhs: &BInt) -> (r: Option<BInt>)
        requires
            self.wf(),
            rhs.wf(),
            self.n() == rhs.n(),
            self.n() < crate::uint::MAX_DIGITS,
        ensures
            r is Some <==> rhs.ival() != 0
                && !(self.ival() == min_ival(self.n()) && rhs.ival() == -1),
            r matches Some(v) ==> v.wf() && v.n() == self.n()
                && v.ival() == erem(self.ival(), rhs.ival()),
    {
        if rhs.is_zero() {
            return None;
        }
        let ua = self.unsigned_abs();
        let ub = rhs.unsigned_abs();
        let (q, rm) = ua.divmod(&ub);
        let na = self.is_negative();
        let nb = rhs.is_negative();
        let rm_zero = rm.is_zero();
        proof {
            lemma_ival_range(self.uint.digits@);
            lemma_ival_range(rhs.uint.digits@);
            lemma_top_set_iff(q.digits@);
            lemma_pow2_pos((32 * self.n() - 1) as nat);
            lemma_pow2_adds((32 * self.n() - 1) as nat, 1);
            assert(pow2(1) == 2 && pow2(2) == 4) by { lemma2_to64(); }
            vstd::arithmetic::power2::lemma_pow2_strictly_increases(2, (32 * self.n() - 1) as nat);
            lemma_mag_div_bounds(ua.uval() as int, ub.uval() as int, q.uval() as int,
                rm.uval() as int, pow2((32 * self.n() - 1) as nat) as int);
            if na {
                lemma_div_neg(ua.uval() as int, ub.uval() as int);
            }
        }
        if na == nb && q.top_bit() {
            return None;
        }
        if !na || rm_zero {
            proof {
                lemma_top_set_iff(rm.digits@);
            }
            Some(BInt::from_bits(rm))
        } else {
            let (re, _bo) = ub.sub_borrow(&rm, false);
            proof {
                lemma_uval_bound(re.digits@);
                lemma_pow2_pos(32 * self.n());
                lemma_top_set_iff(re.digits@);
            }
            Some(BInt::from_bits(re))
        }
    }
}

/// The power of a value is the power of its magnitude, negated for an odd
/// power of a negative base.
pub proof fn lemma_pow_abs(b: int, e: nat)
    ensures
        vstd::arithmetic::power::pow(b, e) == (if b >= 0 || e % 2 == 0 {
            vstd::arithmetic::power::pow(iabs(b), e)
        } else {
            -vstd::arithmetic::power::pow(iabs(b), e)
        }),
    decreases e,
{
    vstd::arithmetic::power::lemma_pow0(b);
    vstd::arithmetic::power::lemma_pow0(iabs(b));
    if e > 0 {
        lemma_pow_abs(b, (e - 1) as nat);
        vstd::arithmetic::power::lemma_pow1(b);
        vstd::arithmetic::power::lemma_pow1(iabs(b));
        vstd::arithmetic::power::lemma_pow_adds(b, (e - 1) as nat, 1);
        vstd::arithmetic::power::lemma_pow_adds(iabs(b), (e - 1) as nat, 1);
        let pb = vstd::arithmetic::power::pow(b, (e - 1) as nat);
        let pa = vstd::arithmetic::power::pow(iabs(b), (e - 1) as nat);
        assert(vstd::arithmetic::power::pow(b, e) == pb * b);
        assert(vstd::arithmetic::power::pow(iabs(b), e) == pa * iabs(b));
        if b < 0 {
            if e % 2 == 0 {
                assert((e - 1) as nat % 2 == 1);
                assert((-pa) * b == pa * iabs(b)) by (nonlinear_arith)
                    requires
                        iabs(b) == -b,
                ;
            } else {
                assert((e - 1) as nat % 2 == 0);
                assert(pa * b == -(pa * iabs(b))) by (nonlinear_arith)
                    requires
                        iabs(b) == -b,
                ;
            }
        }
    }
}

impl BInt {
    /// Product, if it is representable.
    pub fn checked_mul(&self, rhs: &BInt) -> (r: Option<BInt>)
        requires
            self.wf(),
            rhs.wf(),
            self.n() == rhs.n(),
            2 * self.n() <= crate::uint::MAX_DIGITS,
        ensures
            r is Some <==> min_ival(self.n()) <= self.ival() * rhs.ival() <= max_ival(self.n()),
            r matches Some(v) ==> v.wf() && v.n() == self.n()
                && v.ival() == self.ival() * rhs.ival(),
    {
        let n = self.uint.digits.len();
        let ua = self.unsigned_abs();
        let ub = rhs.unsigned_abs();
        let full = ua.mulfull(&ub);
        let sign_neg = self.is_negative() != rhs.is_negative();
        let ghost a = self.ival();
        let ghost b = rhs.ival();
        let ghost h = pow2((32 * self.n() - 1) as nat) as int;
        proof {
            lemma_ival_range(self.uint.digits@);
            lemma_ival_range(rhs.uint.digits@);
            lemma_pow2_pos((32 * self.n() - 1) as nat);
            lemma_pow2_adds((32 * self.n() - 1) as nat, 1);
            assert(pow2(1) == 2) by { lemma2_to64(); }
            assert(full.uval() == iabs(a * b) && ((a * b < 0) == (sign_neg && a * b != 0)))
                by (nonlinear_arith)
                requires
                    full.uval() == ua.uval() * ub.uval(),
                    ua.uval() == iabs(a),
                    ub.uval() == iabs(b),
                    iabs(a) == (if a < 0 { -a } else { a }),
                    iabs(b) == (if b < 0 { -b } else { b }),
                    iabs(a * b) == (if a * b < 0 { -(a * b) } else { a * b }),
                    sign_neg == ((a < 0) != (b < 0)),
            ;
        }
        if !full.fits(n) {
            return None;
        }
        let low = full.truncated(n);
        proof {
            lemma_top_set_iff(low.digits@);
        }
        if !sign_neg {
            if low.top_bit() {
                return None;
            }
            Some(BInt::from_bits(low))
        } else {
            if !low.top_bit() {
                let nl = low.wrapping_neg_mag();
                proof {
                    lemma_top_set_iff(nl.digits@);
                }
                Some(BInt::from_bits(nl))
            } else {
                let minv = BInt::min_value(n);
                let at_min = matches!(low.cmp_mags(&minv.uint), core::cmp::Ordering::Equal);
                if at_min {
                    Some(BInt::from_bits(low))
                } else {
                    None
                }
            }
        }
    }

    /// Power with a native exponent, if it is representable.
    pub fn checked_pow(&self, exp: u32) -> (r: Option<BInt>)
        requires
            self.wf(),
            2 * self.n() <= crate::uint::MAX_DIGITS,
        ensures
            r is Some <==> min_ival(self.n())
                <= vstd::arithmetic::power::pow(self.ival(), exp as nat) <= max_ival(self.n()),
            r matches Some(v) ==> v.wf() && v.n() == self.n()
                && v.ival() == vstd::arithmetic::power::pow(self.ival(), exp as nat),
    {
        let n = self.uint.digits.len();
        let ua = self.unsigned_abs();
        let mut acc = BUint::from_digit(n, 1);
        let mut i: u32 = 0;
        let ghost pw = pow2(32 * self.n()) as int;
        let ghost h = pow2((32 * self.n() - 1) as nat) as int;
        let ghost av = ua.uval() as int;
        proof {
            lemma_ival_range(self.uint.digits@);
            lemma_uval_bound(ua.digits@);
            lemma_pow2_pos((32 * self.n() - 1) as nat);
            lemma_pow2_adds((32 * self.n() - 1) as nat, 1);
            assert(pow2(1) == 2) by { lemma2_to64(); }
            lemma_pow_abs(self.ival(), exp as nat);
            vstd::arithmetic::power::lemma_pow0(av);
            vstd::arithmetic::power2::lemma_pow2_strictly_increases(1, (32 * self.n() - 1) as nat);
        }
        while i < exp
            invariant
                i <= exp,
                n == self.n() == acc.n() == ua.n(),
                acc.wf(),
                ua.wf(),
                2 * n <= crate::uint::MAX_DIGITS,
                av == ua.uval(),
                av == iabs(self.ival()),
                pw == pow2(32 * n as nat),
                h == pow2((32 * n - 1) as nat),
                pw == 2 * h,
                h >= 2,
                self.wf(),
                acc.uval() == vstd::arithmetic::power::pow(av, i as nat),
            decreases exp - i,
        {
            let full = acc.mulfull(&ua);
            proof {
                vstd::arithmetic::power::lemma_pow1(av);
                vstd::arithmetic::power::lemma_pow_adds(av, i as nat, 1);
                assert(vstd::arithmetic::power::pow(av, (i + 1) as nat)
                    == vstd::arithmetic::power::pow(av, i as nat) * av);
                assert(full.uval() == vstd::arithmetic::power::pow(av, (i + 1) as nat))
                    by (nonlinear_arith)
                    requires
                        full.uval() == acc.uval() * av,
                        acc.uval() == vstd::arithmetic::power::pow(av, i as nat),
                        vstd::arithmetic::power::pow(av, (i + 1) as nat)
                            == vstd::arithmetic::power::pow(av, i as nat) * av,
                ;
            }
            if !full.fits(n) {
                proof {
                    // the magnitude already overflows and can only grow
                    assert(av >= 1) by (nonlinear_arith)
                        requires
                            full.uval() == acc.uval() * av,
                            full.uval() >= pw,
                            pw > 0,
                            av >= 0,
                    ;
                    vstd::arithmetic::power::lemma_pow_increases(av as nat, (i + 1) as nat,
                        exp as nat);
                    lemma_pow_abs(self.ival(), exp as nat);
                }
                return None;
            }
            let acc2 = full.truncated(n);
            acc = acc2;
            i += 1;
        }
        let neg = self.is_negative();
        proof {
            lemma_top_set_iff(acc.digits@);
            lemma_pow_abs(self.ival(), exp as nat);
        }
        if !neg || exp % 2 == 0 {
            if acc.top_bit() {
                None
            } else {
                Some(BInt::from_bits(acc))
            }
        } else {
            proof {
                vstd::arithmetic::power::lemma_pow_positive(av, exp as nat);
            }
            let nacc = acc.wrapping_neg_mag();
            proof {
                lemma_top_set_iff(nacc.digits@);
            }
            if nacc.top_bit() {
                Some(BInt::from_bits(nacc))
            } else {
                None
            }
        }
    }
}

/// The smallest multiple of `b` at or above `a` for positive `b`, and the
/// multiple reached by removing the Euclidean remainder for negative `b`.
pub open spec fn next_mul(a: int, b: int) -> int {
    if b < 0 {
        a - erem(a, b)
    } else if erem(a, b) == 0 {
        a
    } else {
        a + b - erem(a, b)
    }
}

/// Nested Euclidean division by positive divisors collapses into one.
proof fn lemma_div_div(x: int, c: int, d: int)
    requires
        c > 0,
        d > 0,
    ensures
        (x / c) / d == x / (c * d),
{
    vstd::arithmetic::div_mod::lemma_fundamental_div_mod(x, c);
    vstd::arithmetic::div_mod::lemma_fundamental_div_mod(x / c, d);
    let q = (x / c) / d;
    let r1 = x % c;
    let r2 = (x / c) % d;
    assert(x == (c * d) * q + (c * r2 + r1)) by (nonlinear_arith)
        requires
            x == c * (x / c) + r1,
            x / c == d * q + r2,
    ;
    assert(0 <= c * r2 + r1 < c * d) by (nonlinear_arith)
        requires
            0 <= r1 < c,
            0 <= r2 < d,
            c > 0,
            d > 0,
    ;
    assert(c * d > 0) by (nonlinear_arith)
        requires
            c > 0,
            d > 0,
    ;
    vstd::arithmetic::div_mod::lemma_fundamental_div_mod_converse(x, c * d, q, c * r2 + r1);
}

impl BInt {
    /// One-bit arithmetic right shift: halves the value, rounding toward
    /// negative infinity.
    fn arith_shr1(&self) -> (r: BInt)
        requires
            self.wf(),
        ensures
            r.wf(),
            r.n() == self.n(),
            r.ival() == self.ival() / 2,
    {
        let neg = self.is_negative();
        let u = self.uint.shr1(neg);
        proof {
            let h = pow2((32 * self.n() - 1) as nat) as int;
            let v = self.uint.uval() as int;
            lemma_top_set_iff(self.uint.digits@);
            lemma_top_set_iff(u.digits@);
            lemma_uval_bound(self.uint.digits@);
            lemma_pow2_adds((32 * self.n() - 1) as nat, 1);
            assert(pow2(1) == 2) by { lemma2_to64(); }
            lemma_pow2_pos((32 * self.n() - 1) as nat);
            if neg {
                // the sign-filled shift is the Euclidean halving of the
                // negative value
                vstd::arithmetic::div_mod::lemma_fundamental_div_mod(v, 2);
                vstd::arithmetic::div_mod::lemma_fundamental_div_mod_converse(
                    v - 2 * h, 2, v / 2 - h, v % 2);
                assert(u.uval() == v / 2 + h);
                assert(v / 2 >= h / 2) by {
                    vstd::arithmetic::div_mod::lemma_div_is_ordered(h, v, 2);
                }
                vstd::arithmetic::div_mod::lemma_div_is_ordered(0, h, 2);
            } else {
                lemma_div_le(v, 2);
                vstd::arithmetic::div_mod::lemma_div_is_ordered(v, h - 1, 2);
            }
        }
        BInt { uint: u }
    }

    /// Left shift: absent when the shift reaches the bit width; bits moved
    /// past the top are discarded.
    pub fn checked_shl(&self, rhs: u32) -> (r: Option<BInt>)
        requires
            self.wf(),
        ensures
            r is Some <==> rhs < 32 * self.n(),
            r matches Some(v) ==> v.wf() && v.n() == self.n()
                && v.uint.uval() == (self.uint.uval() * pow2(rhs as nat))
                    % pow2(32 * self.n()),
    {
        let n = self.uint.digits.len();
        let w: u32 = (n as u32) * 32;
        if rhs >= w {
            return None;
        }
        Some(BInt::from_bits(self.uint.wrapping_shl(rhs)))
    }

    /// Arithmetic right shift: absent when the shift reaches the bit width;
    /// the result rounds toward negative infinity.
    pub fn checked_shr(&self, rhs: u32) -> (r: Option<BInt>)
        requires
            self.wf(),
        ensures
            r is Some <==> rhs < 32 * self.n(),
            r matches Some(v) ==> v.wf() && v.n() == self.n()
                && v.ival() == self.ival() / (pow2(rhs as nat) as int),
    {
        let n = self.uint.digits.len();
        let w: u32 = (n as u32) * 32;
        if rhs >= w {
            return None;
        }
        let mut cur = self.dup();
        let mut j: u32 = 0;
        proof {
            assert(pow2(0) == 1) by { lemma2_to64(); }
            vstd::arithmetic::div_mod::lemma_div_basics(self.ival());
        }
        while j < rhs
            invariant
                j <= rhs,
                self.wf(),
                cur.wf(),
                cur.n() == self.n(),
                cur.ival() == self.ival() / (pow2(j as nat) as int),
            decreases rhs - j,
        {
            let c2 = cur.arith_shr1();
            proof {
                lemma_pow2_adds(j as nat, 1);
                assert(pow2(1) == 2) by { lemma2_to64(); }
                lemma_pow2_pos(j as nat);
                lemma_div_div(self.ival(), pow2(j as nat) as int, 2);
            }
            cur = c2;
            j += 1;
        }
        Some(cur)
    }

    /// Base-two logarithm, rounded down: absent unless the value is positive.
    pub fn checked_log2(&self) -> (r: Option<u32>)
        requires
            self.wf(),
        ensures
            r is Some <==> self.ival() > 0,
            r matches Some(k) ==> pow2(k as nat) <= self.ival() < pow2((k + 1) as nat),
    {
        proof {
            lemma_top_set_iff(self.uint.digits@);
            crate::vals::lemma_uval_zero(self.uint.digits@);
            lemma_pow2_pos((32 * self.n() - 1) as nat);
        }
        if self.is_negative() {
            return None;
        }
        if self.uint.is_zero() {
            return None;
        }
        let n = self.uint.digits.len();
        let mut j = n;
        while j > 0
            invariant
                j <= n,
                n == self.n(),
                self.wf(),
                !top_set(self.uint.digits@),
                self.ival() == self.uint.uval(),
                self.uint.uval() > 0,
                forall|x: int| j <= x < n ==> self.uint.digits@[x] == 0u32,
            decreases j,
        {
            j -= 1;
            let d = self.uint.digits[j];
            if d != 0 {
                // highest non-zero digit found; find its highest set bit
                let mut t: u32 = 31;
                let mut p: u32 = 0x8000_0000;
                proof {
                    crate::vals::lemma_base_value();
                }
                while p > d
                    invariant
                        t <= 31,
                        p == pow2(t as nat),
                        d < 2 * p,
                        d >= 1,
                    decreases t,
                {
                    proof {
                        if t == 0 {
                            assert(pow2(0) == 1) by { lemma2_to64(); }
                            assert(false);
                        }
                        lemma_pow2_adds((t - 1) as nat, 1);
                        assert(pow2(1) == 2) by { lemma2_to64(); }
                    }
                    p = p / 2;
                    t -= 1;
                }
                let k: u32 = (j as u32) * 32 + t;
                proof {
                    let s = self.uint.digits@;
                    let pj = pow2(32 * j as nat) as int;
                    let dv = d as int;
                    crate::vals::lemma_uval_split(s, j as int);
                    crate::vals::lemma_uval_skip_unfold(s, j as int);
                    crate::vals::lemma_uval_bound(s.take(j as int));
                    assert(forall|x: int| 0 <= x < s.skip(j as int + 1).len()
                        ==> #[trigger] s.skip(j as int + 1)[x] == s[x + j + 1]);
                    crate::vals::lemma_uval_zero(s.skip(j as int + 1));
                    crate::vals::lemma_base_value();
                    assert(uval(s.skip(j as int)) == dv) by (nonlinear_arith)
                        requires
                            uval(s.skip(j as int)) == dv
                                + 0x1_0000_0000 * uval(s.skip(j as int + 1)),
                            uval(s.skip(j as int + 1)) == 0,
                    ;
                    lemma_pow2_adds(32 * j as nat, t as nat);
                    lemma_pow2_adds(32 * j as nat, (t + 1) as nat);
                    lemma_pow2_adds(t as nat, 1);
                    assert(pow2(1) == 2) by { lemma2_to64(); }
                    lemma_pow2_pos(t as nat);
                    assert(pow2(k as nat) <= self.uval() && self.uval() < pow2((k + 1) as nat))
                        by (nonlinear_arith)
                        requires
                            self.uval() == uval(s.take(j as int)) + pj * dv,
                            uval(s.take(j as int)) < pj,
                            uval(s.take(j as int)) >= 0,
                            pow2(t as nat) <= dv < 2 * pow2(t as nat),
                            pow2(k as nat) == pj * pow2(t as nat),
                            pow2((k + 1) as nat) == pj * (2 * pow2(t as nat)),
                            pj > 0,
                    ;
                }
                return Some(k);
            }
        }
        proof {
            assert(self.uval() == 0);
        }
        None
    }

    /// Base-ten logarithm, rounded down: absent unless the value is positive.
    pub fn checked_log10(&self) -> (r: Option<u32>)
        requires
            self.wf(),
            2 * self.n() <= crate::uint::MAX_DIGITS,
        ensures
            r is Some <==> self.ival() > 0,
            r matches Some(k) ==> vstd::arithmetic::power::pow(10, k as nat) <= self.ival()
                && self.ival() < vstd::arithmetic::power::pow(10, (k + 1) as nat),
    {
        proof {
            lemma_top_set_iff(self.uint.digits@);
            crate::vals::lemma_uval_zero(self.uint.digits@);
            lemma_pow2_pos((32 * self.n() - 1) as nat);
        }
        if self.is_negative() {
            return None;
        }
        if self.uint.is_zero() {
            return None;
        }
        let n = self.uint.digits.len();
        let ten = BUint::from_digit(n, 10);
        let mut cur = BUint::from_digit(n, 1);
        let mut k: u32 = 0;
        let ghost x = self.uint.uval() as int;
        let ghost pw = pow2(32 * self.n()) as int;
        proof {
            vstd::arithmetic::power::lemma_pow0(10);
            vstd::arithmetic::power::lemma_pow1(10);
            assert(pow2(0) == 1) by { lemma2_to64(); }
            crate::vals::lemma_uval_bound(self.uint.digits@);
        }
        loop
            invariant
                n == self.n(),
                self.wf(),
                cur.wf(),
                ten.wf(),
                cur.n() == n == ten.n(),
                2 * n <= crate::uint::MAX_DIGITS,
                ten.uval() == 10,
                x == self.uint.uval(),
                1 <= x,
                x < pw,
                pw == pow2(32 * n as nat),
                x == self.ival(),
                cur.uval() == vstd::arithmetic::power::pow(10, k as nat),
                cur.uval() <= x,
                pow2(k as nat) <= cur.uval(),
                k < 32 * n,
            decreases 32 * n - k,
        {
            let full = cur.mulfull(&ten);
            proof {
                vstd::arithmetic::power::lemma_pow1(10);
                vstd::arithmetic::power::lemma_pow_adds(10, k as nat, 1);
                assert(full.uval() == vstd::arithmetic::power::pow(10, (k + 1) as nat))
                    by (nonlinear_arith)
                    requires
                        full.uval() == cur.uval() * 10,
                        cur.uval() == vstd::arithmetic::power::pow(10, k as nat),
                        vstd::arithmetic::power::pow(10, (k + 1) as nat)
                            == vstd::arithmetic::power::pow(10, k as nat) * 10,
                ;
            }
            if !full.fits(n) {
                // the next power of ten already overflows the width
                return Some(k);
            }
            let next = full.truncated(n);
            let too_big = matches!(next.cmp_mags(&self.uint), core::cmp::Ordering::Greater);
            if too_big {
                return Some(k);
            }
            proof {
                lemma_pow2_adds(k as nat, 1);
                lemma_pow2_pos(k as nat);
                assert(pow2(1) == 2) by { lemma2_to64(); }
                assert(pow2((k + 1) as nat) <= next.uval()) by (nonlinear_arith)
                    requires
                        next.uval() == cur.uval() * 10,
                        pow2(k as nat) <= cur.uval(),
                        pow2((k + 1) as nat) == pow2(k as nat) * 2,
                        cur.uval() >= 1,
                ;
                if k + 1 >= 32 * n {
                    vstd::arithmetic::power2::lemma_pow2_strictly_increases(32 * n as nat,
                        (k + 1) as nat);
                    assert(false);
                }
            }
            cur = next;
            k += 1;
        }
    }

    /// The nearest multiple of `rhs` in its own direction: absent when the
    /// Euclidean remainder is, or when the adjusted value overflows.
    pub fn checked_next_multiple_of(&self, rhs: &BInt) -> (r: Option<BInt>)
        requires
            self.wf(),
            rhs.wf(),
            self.n() == rhs.n(),
            self.n() < crate::uint::MAX_DIGITS,
        ensures
            r is Some <==> rhs.ival() != 0
                && !(self.ival() == min_ival(self.n()) && rhs.ival() == -1)
                && min_ival(self.n()) <= next_mul(self.ival(), rhs.ival()) <= max_ival(self.n()),
            r matches Some(v) ==> v.wf() && v.n() == self.n()
                && v.ival() == next_mul(self.ival(), rhs.ival()),
    {
        proof {
            lemma_ival_range(self.uint.digits@);
            lemma_ival_range(rhs.uint.digits@);
        }
        match self.checked_rem_euclid(rhs) {
            None => None,
            Some(rem) => {
                if rhs.is_negative() {
                    self.checked_sub(&rem)
                } else if rem.is_zero() {
                    Some(self.dup())
                } else {
                    match rhs.checked_sub(&rem) {
                        Some(d) => self.checked_add(&d),
                        None => {
                            proof {
                                assert(false);
                            }
                            None
                        },
                    }
                }
            },
        }
    }
}

/// Negation round-trip law: negating any value other than the minimum
/// succeeds, never lands on the minimum, and negating again restores it.
pub proof fn lemma_checked_neg_involution(v: int, n: nat)
    requires
        n >= 1,
        min_ival(n) <= v <= max_ival(n),
        v != min_ival(n),
    ensures
        min_ival(n) <= -v <= max_ival(n),
        -v != min_ival(n),
        -(-v) == v,
{
    vstd::arithmetic::power2::lemma_pow2_pos((32 * n - 1) as nat);
}

} // verus!
