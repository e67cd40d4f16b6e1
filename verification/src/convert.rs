//! The conversion layer: total conversions from native signed integers by
//! sign extension, fallible conversions from unsigned sources and back to
//! native integers, each failure carrying a typed reason.

use vstd::prelude::*;
use vstd::arithmetic::power2::{pow2, lemma_pow2_adds, lemma_pow2_pos, lemma2_to64,
    lemma2_to64_rest, lemma_pow2_strictly_increases};
use vstd::arithmetic::div_mod::lemma_fundamental_div_mod;
use crate::uint::BUint;
use crate::signed::BInt;
use crate::ordering::BintTest;
use crate::vals::{uval, ival, top_set, min_ival, max_ival, base, lemma_base_value,
    lemma_uval_bound, lemma_uval_split, lemma_uval_zero, lemma_uval_take_succ,
    lemma_top_set_iff, lemma_ival_range, lemma_uval_push};

verus! {

/// Why a conversion failed.
#[derive(Clone, Copy, Debug, PartialEq, Eq, Structural)]
pub enum TryFromReason {
    TooLarge,
    Negative,
    NotFinite,
    EmptyInput,
    InvalidDigit,
    PositiveOverflow,
    NegativeOverflow,
}

/// A typed conversion failure: source, destination, and the reason.
#[derive(Clone, Copy, Debug)]
pub struct TryFromIntError {
    pub from: &'static str,
    pub to: &'static str,
    pub reason: TryFromReason,
}

/// All-ones digits make the all-ones value.
pub proof fn lemma_uval_ones(s: Seq<u32>)
    requires
        forall|j: int| 0 <= j < s.len() ==> s[j] == 0xFFFF_FFFFu32,
    ensures
        uval(s) == pow2(32 * s.len()) - 1,
    decreases s.len(),
{
    lemma_base_value();
    if s.len() == 0 {
        assert(pow2(0) == 1) by { lemma2_to64(); }
    } else {
        let rest = s.drop_first();
        assert(forall|j: int| 0 <= j < rest.len() ==> rest[j] == s[j + 1]);
        lemma_uval_ones(rest);
        lemma_pow2_adds(32, 32 * rest.len());
        let q = pow2(32 * rest.len()) as int;
        assert(0xFFFF_FFFF + base() * (q - 1) == base() * q - 1) by (nonlinear_arith)
            requires
                base() == 0x1_0000_0000,
        ;
    }
}

/// A value fits in the low `k`-digit window exactly when every digit above
/// the window is the sign fill of the whole value and the window's own top
/// bit agrees with the sign; the value is then the window's signed value.
pub proof fn lemma_truncation(s: Seq<u32>, k: int)
    requires
        1 <= k < s.len(),
    ensures
        (-(pow2((32 * k - 1) as nat) as int) <= ival(s) < pow2((32 * k - 1) as nat) as int)
            <==> ((forall|j: int| k <= j < s.len()
                ==> s[j] == (if top_set(s) { 0xFFFF_FFFFu32 } else { 0u32 }))
                && top_set(s.take(k)) == top_set(s)),
        ((forall|j: int| k <= j < s.len()
            ==> s[j] == (if top_set(s) { 0xFFFF_FFFFu32 } else { 0u32 }))
            && top_set(s.take(k)) == top_set(s)) ==> ival(s) == ival(s.take(k)),
{
    let n = s.len() as int;
    let low = s.take(k);
    let hi = s.skip(k);
    let pk = pow2(32 * k as nat) as int;
    let ph = pow2((32 * k - 1) as nat) as int;
    let pw = pow2(32 * n as nat) as int;
    let hm = pow2(32 * (n - k) as nat) as int;
    lemma_uval_split(s, k);
    lemma_uval_bound(low);
    lemma_uval_bound(hi);
    lemma_uval_bound(s);
    lemma_top_set_iff(s);
    lemma_top_set_iff(low);
    lemma_pow2_adds((32 * k - 1) as nat, 1);
    assert(pow2(1) == 2) by { lemma2_to64(); }
    lemma_pow2_adds(32 * k as nat, 32 * (n - k) as nat);
    assert(pw == pk * hm);
    lemma_pow2_adds((32 * n - 1) as nat, 1);
    assert(s[n - 1] == hi[hi.len() - 1]);
    let u = uval(s) as int;
    let l = uval(low) as int;
    let h = uval(hi) as int;
    assert(u == l + pk * h);
    if top_set(s) {
        // negative: fits iff the high window is all ones and the low window
        // is itself negative
        if forall|j: int| k <= j < n ==> s[j] == 0xFFFF_FFFFu32 {
            assert(forall|j: int| 0 <= j < hi.len() ==> hi[j] == 0xFFFF_FFFFu32);
            lemma_uval_ones(hi);
            assert(u == l + pk * (hm - 1)) by (nonlinear_arith)
                requires
                    u == l + pk * h,
                    h == hm - 1,
            ;
            assert(pk * (hm - 1) == pw - pk) by (nonlinear_arith)
                requires
                    pw == pk * hm,
            ;
            if top_set(low) {
                assert(ival(s) == l - pk);
                assert(ival(s) == ival(low));
                assert(l >= ph);
            } else {
                assert(l < ph);
                assert(ival(s) < -ph);
            }
        } else {
            let j = choose|j: int| k <= j < n && s[j] != 0xFFFF_FFFFu32;
            // some high digit is short of all-ones: the value sits below
            // the window's reach
            assert(hi[j - k] == s[j]);
            assert(h <= hm - 1 - pow2(32 * (j - k) as nat)) by {
                lemma_uval_split(hi, j - k + 1);
                lemma_uval_bound(hi.take(j - k + 1));
                lemma_uval_take_succ(hi, j - k);
                lemma_uval_bound(hi.take(j - k));
                // h and ones differ at j - k, and h's digit is at least one
                // smaller, so h <= ones - pow2 at that digit's weight
                let pj = pow2(32 * (j - k) as nat) as int;
                let hs = uval(hi.skip(j - k + 1)) as int;
                let os = (pow2(32 * (hi.len() - (j - k + 1)) as nat) - 1) as int;
                assert(uval(hi.take(j - k + 1)) <= pj * (s[j] + 1) - 1) by (nonlinear_arith)
                    requires
                        uval(hi.take(j - k + 1)) == uval(hi.take(j - k)) + s[j] * pj,
                        uval(hi.take(j - k)) < pj,
                        pj > 0,
                        s[j] >= 0,
                ;
                let ss = hi.skip(j - k + 1);
                lemma_uval_bound(ss);
                let pj1 = pow2(32 * (j - k + 1) as nat) as int;
                lemma_pow2_adds(32 * (j - k) as nat, 32);
                lemma_pow2_adds(32 * (j - k + 1) as nat, 32 * (hi.len() - (j - k + 1)) as nat);
                lemma_base_value();
                assert(h == uval(hi.take(j - k + 1)) + pj1 * uval(ss));
                assert(h <= hm - 1 - pj) by (nonlinear_arith)
                    requires
                        h == uval(hi.take(j - k + 1)) + pj1 * uval(ss),
                        uval(hi.take(j - k + 1)) <= pj * (s[j] + 1) - 1,
                        uval(ss) <= pow2(32 * (hi.len() - (j - k + 1)) as nat) - 1,
                        pj1 == pj * 0x1_0000_0000,
                        hm == pj1 * pow2(32 * (hi.len() - (j - k + 1)) as nat),
                        s[j] <= 0xFFFF_FFFE,
                        pj > 0,
                        pj1 > 0,
                ;
            }
            lemma_pow2_pos(32 * (j - k) as nat);
            assert(u <= l + pk * (hm - 2)) by (nonlinear_arith)
                requires
                    u == l + pk * h,
                    h <= hm - 2,
                    pk > 0,
            ;
            assert(pk * (hm - 2) == pw - 2 * pk) by (nonlinear_arith)
                requires
                    pw == pk * hm,
            ;
            assert(ival(s) < -ph);
        }
    } else {
        // non-negative: fits iff the high window is all zero and the low
        // window is itself non-negative
        lemma_uval_zero(hi);
        if h == 0 {
            assert(pk * 0 == 0) by (nonlinear_arith);
            assert(u == l);
            assert(forall|j: int| k <= j < n ==> s[j] == hi[j - k] && hi[j - k] == 0u32);
            if top_set(low) {
                assert(ival(s) >= ph);
            } else {
                assert(ival(s) == ival(low));
            }
        } else {
            assert(u >= pk * 1) by (nonlinear_arith)
                requires
                    u == l + pk * h,
                    h >= 1,
                    l >= 0,
                    pk > 0,
            ;
            lemma_pow2_pos(32 * k as nat);
            assert(ival(s) >= pk);
            assert(exists|j: int| 0 <= j < hi.len() && hi[j] != 0u32);
            let j = choose|j: int| 0 <= j < hi.len() && hi[j] != 0u32;
            assert(s[j + k] != 0u32);
        }
    }
}

impl BUint {
    /// Build a magnitude from a native unsigned 128-bit value.
    pub fn from_u128(n: usize, v: u128) -> (r: BUint)
        requires
            4 <= n <= crate::uint::MAX_DIGITS,
        ensures
            r.wf(),
            r.n() == n,
            r.uval() == v,
    {
        let b: u128 = 0x1_0000_0000;
        let d0: u32 = (v % b) as u32;
        let q1: u128 = v / b;
        let d1: u32 = (q1 % b) as u32;
        let q2: u128 = q1 / b;
        let d2: u32 = (q2 % b) as u32;
        let q3: u128 = q2 / b;
        let d3: u32 = q3 as u32;
        proof {
            lemma_base_value();
            assert(pow2(0) == 1) by { lemma2_to64(); }
            lemma_pow2_adds(32, 32);
            lemma_pow2_adds(64, 32);
            lemma_pow2_adds(96, 32);
            lemma_fundamental_div_mod(v as int, b as int);
            lemma_fundamental_div_mod(q1 as int, b as int);
            lemma_fundamental_div_mod(q2 as int, b as int);
            assert(q3 < b) by (nonlinear_arith)
                requires
                    q3 == (v / b as u128 / b as u128) / b as u128,
                    v < b as u128 * (b as u128 * (b as u128 * b as u128)),
                    b == 0x1_0000_0000u128,
            ;
        }
        let mut digits: Vec<u32> = Vec::new();
        digits.push(d0);
        proof {
            lemma_uval_push(Seq::<u32>::empty(), d0);
            assert(digits@ =~= Seq::<u32>::empty().push(d0));
            assert(pow2(0) == 1) by { lemma2_to64(); }
            assert(uval(digits@) == 0 + d0 * pow2(0));
            assert(d0 * pow2(0) == d0) by (nonlinear_arith)
                requires
                    pow2(0) == 1,
            ;
        }
        digits.push(d1);
        digits.push(d2);
        digits.push(d3);
        proof {
            let s0 = Seq::<u32>::empty().push(d0);
            lemma_uval_push(s0, d1);
            lemma_uval_push(s0.push(d1), d2);
            lemma_uval_push(s0.push(d1).push(d2), d3);
            assert(digits@ =~= s0.push(d1).push(d2).push(d3));
            assert(uval(digits@) == d0 + pow2(32) * d1 + pow2(64) * d2 + pow2(96) * d3)
                by (nonlinear_arith)
                requires
                    uval(digits@) == uval(s0) + d1 * pow2(32) + d2 * pow2(64) + d3 * pow2(96),
                    uval(s0) == d0,
            ;
            assert(uval(digits@) == v) by (nonlinear_arith)
                requires
                    uval(digits@) == d0 + pow2(32) * d1 + pow2(64) * d2 + pow2(96) * d3,
                    v == 0x1_0000_0000 * (q1 as int) + d0,
                    q1 == 0x1_0000_0000 * (q2 as int) + d1,
                    q2 == 0x1_0000_0000 * (q3 as int) + d2,
                    d3 == q3,
                    pow2(32) == 0x1_0000_0000,
                    pow2(64) == pow2(32) * pow2(32),
                    pow2(96) == pow2(64) * pow2(32),
            ;
        }
        let mut i: usize = 4;
        while i < n
            invariant
                4 <= i <= n,
                digits@.len() == i,
                uval(digits@) == v,
            decreases n - i,
        {
            proof {
                lemma_uval_push(digits@, 0);
                vstd::arithmetic::mul::lemma_mul_basics(pow2(32 * i as nat) as int);
            }
            digits.push(0);
            i += 1;
        }
        BUint { digits }
    }

    /// Convert back to a native 64-bit unsigned value, if it fits.
    pub fn try_to_u64(&self) -> (r: Result<u64, TryFromIntError>)
        requires
            self.wf(),
        ensures
            r is Ok <==> self.uval() < pow2(64),
            r matches Ok(v) ==> v == self.uval(),
            r matches Err(e) ==> e.reason == TryFromReason::TooLarge,
    {
        let n = self.digits.len();
        proof {
            lemma_uval_bound(self.digits@);
            assert(pow2(64) == 0x1_0000_0000_0000_0000) by { lemma2_to64_rest(); }
            lemma_base_value();
            if n == 1 {
                lemma_pow2_strictly_increases(32, 64);
            }
        }
        if n == 1 {
            return Ok(self.digits[0] as u64);
        }
        let mut j: usize = 2;
        while j < n
            invariant
                2 <= j <= n,
                n == self.n(),
                self.wf(),
                forall|x: int| 2 <= x < j ==> self.digits@[x] == 0u32,
            decreases n - j,
        {
            if self.digits[j] != 0 {
                proof {
                    assert(self.digits@.skip(2)[j - 2] != 0u32);
                    lemma_uval_zero(self.digits@.skip(2));
                    lemma_uval_split(self.digits@, 2);
                    lemma_uval_bound(self.digits@.take(2));
                    let l = uval(self.digits@.take(2)) as int;
                    let h = uval(self.digits@.skip(2)) as int;
                    assert(l + pow2(64) * h >= pow2(64)) by (nonlinear_arith)
                        requires
                            h >= 1,
                            l >= 0,
                            pow2(64) > 0,
                    ;
                    lemma_pow2_adds(32, 32);
                }
                return Err(TryFromIntError {
                    from: "BUint",
                    to: "u64",
                    reason: TryFromReason::TooLarge,
                });
            }
            j += 1;
        }
        proof {
            assert(forall|x: int| 0 <= x < self.digits@.skip(2).len()
                ==> self.digits@.skip(2)[x] == self.digits@[x + 2]);
            lemma_uval_zero(self.digits@.skip(2));
            lemma_uval_split(self.digits@, 2);
            lemma_uval_bound(self.digits@.take(2));
            lemma_pow2_adds(32, 32);
            assert(pow2(64) * uval(self.digits@.skip(2)) == 0) by (nonlinear_arith)
                requires
                    uval(self.digits@.skip(2)) == 0,
            ;
            let s2 = self.digits@.take(2);
            assert(uval(s2.take(1)) == self.digits@[0]) by {
                lemma_uval_take_succ(s2, 0);
                assert(uval(s2.take(0)) == 0);
                vstd::arithmetic::mul::lemma_mul_basics(self.digits@[0] as int);
                assert(pow2(0) == 1) by { lemma2_to64(); }
            }
            lemma_uval_take_succ(s2, 1);
            assert(s2.take(2) =~= s2);
            assert(pow2(32) * 0 == 0) by (nonlinear_arith);
        }
        Ok(self.digits[0] as u64 + self.digits[1] as u64 * 0x1_0000_0000)
    }
}

impl BInt {
    /// Sign-extend a native signed 128-bit value into the full width.
    pub fn from_i128(n: usize, v: i128) -> (r: BInt)
        requires
            4 <= n <= crate::uint::MAX_DIGITS,
        ensures
            r.wf(),
            r.n() == n,
            r.ival() == v,
    {
        proof {
            lemma_pow2_adds(64, 64);
            lemma_pow2_adds(64, 63);
            assert(pow2(64) == 0x1_0000_0000_0000_0000) by { lemma2_to64_rest(); }
            assert(pow2(63) == 0x8000_0000_0000_0000) by { lemma2_to64_rest(); }
            assert(pow2(128) == 0x1_0000_0000_0000_0000_0000_0000_0000_0000);
            assert(pow2(127) == 0x8000_0000_0000_0000_0000_0000_0000_0000);
        }
        let u: u128 = #[verifier::truncate] (v as u128);
        proof {
            assert(v < 0 ==> v as u128 == v + 0x1_0000_0000_0000_0000_0000_0000_0000_0000)
                by (bit_vector);
            assert(v >= 0 ==> v as u128 == v) by (bit_vector);
        }
        let mag = BUint::from_u128(4, u);
        let mut digits = mag.digits;
        let fill: u32 = if v < 0 { 0xFFFF_FFFF } else { 0 };
        let mut i: usize = 4;
        proof {
            lemma_base_value();
        }
        while i < n
            invariant
                4 <= i <= n,
                digits@.len() == i,
                base() == 0x1_0000_0000,
                uval(digits@) == u + (if fill == 0xFFFF_FFFFu32 {
                    pow2(32 * i as nat) - pow2(128)
                } else {
                    0int
                }),
                fill == 0xFFFF_FFFFu32 || fill == 0u32,
                pow2(128) == 0x1_0000_0000_0000_0000_0000_0000_0000_0000,
            decreases n - i,
        {
            proof {
                lemma_uval_push(digits@, fill);
                lemma_pow2_adds(32 * i as nat, 32);
                if fill == 0xFFFF_FFFF {
                    assert(uval(digits@) + 0xFFFF_FFFF * pow2(32 * i as nat)
                        == u + (pow2(32 * (i + 1) as nat) - pow2(128))) by (nonlinear_arith)
                        requires
                            uval(digits@) == u + (pow2(32 * i as nat) - pow2(128)),
                            pow2(32 * (i + 1) as nat) == pow2(32 * i as nat) * 0x1_0000_0000,
                    ;
                } else {
                    vstd::arithmetic::mul::lemma_mul_basics(pow2(32 * i as nat) as int);
                }
            }
            digits.push(fill);
            i += 1;
        }
        let out = BUint { digits };
        proof {
            let s = out.digits@;
            let w = 32 * n as nat;
            lemma_uval_bound(s);
            lemma_top_set_iff(s);
            if v >= 0 {
                assert(u == v);
                assert(uval(s) == v);
                if 32 * n == 128 {
                    assert(uval(s) < pow2(127));
                } else {
                    lemma_pow2_strictly_increases(127, (w - 1) as nat);
                }
                assert(!top_set(s));
            } else {
                assert(u == v + pow2(128));
                assert(uval(s) == v + pow2(w));
                if 32 * n == 128 {
                    assert(uval(s) >= pow2(127));
                } else {
                    lemma_pow2_strictly_increases(127, (w - 1) as nat);
                    lemma_pow2_adds((w - 1) as nat, 1);
                    assert(pow2(1) == 2) by { lemma2_to64(); }
                    assert(uval(s) >= pow2((w - 1) as nat));
                }
                assert(top_set(s));
            }
        }
        BInt { uint: out }
    }

    /// Convert back to a native signed 128-bit value, if it fits; the width
    /// must be at least that of the target.
    pub fn try_to_i128(&self) -> (r: Result<i128, TryFromIntError>)
        requires
            self.wf(),
            self.n() >= 4,
        ensures
            r is Ok <==> -(pow2(127) as int) <= self.ival() < pow2(127),
            r matches Ok(v) ==> v == self.ival(),
            r matches Err(e) ==> e.reason == TryFromReason::TooLarge,
    {
        proof {
            lemma_pow2_adds(64, 64);
            lemma_pow2_adds(64, 63);
            assert(pow2(64) == 0x1_0000_0000_0000_0000) by { lemma2_to64_rest(); }
            assert(pow2(63) == 0x8000_0000_0000_0000) by { lemma2_to64_rest(); }
            assert(pow2(128) == 0x1_0000_0000_0000_0000_0000_0000_0000_0000);
            assert(pow2(127) == 0x8000_0000_0000_0000_0000_0000_0000_0000);
        }
        let n = self.digits_len();
        let neg = self.is_negative();
        let fill: u32 = if neg { 0xFFFF_FFFF } else { 0 };
        if n == 4 {
            proof {
                lemma_ival_range(self.uint.digits@);
            }
        } else {
            proof {
                lemma_truncation(self.uint.digits@, 4);
            }
            let mut j: usize = 4;
            while j < n
                invariant
                    4 <= j <= n,
                    n == self.n(),
                    self.wf(),
                    neg == top_set(self.uint.digits@),
                    fill == (if neg { 0xFFFF_FFFFu32 } else { 0u32 }),
                    forall|x: int| 4 <= x < j ==> self.uint.digits@[x] == fill,
                decreases n - j,
            {
                if self.uint.digits[j] != fill {
                    proof {
                        lemma_truncation(self.uint.digits@, 4);
                    }
                    return Err(TryFromIntError {
                        from: "Bint",
                        to: "i128",
                        reason: TryFromReason::TooLarge,
                    });
                }
                j += 1;
            }
            if (self.uint.digits[3] >= 0x8000_0000) != neg {
                proof {
                    lemma_truncation(self.uint.digits@, 4);
                    lemma_top_set_iff(self.uint.digits@.take(4));
                }
                return Err(TryFromIntError {
                    from: "Bint",
                    to: "i128",
                    reason: TryFromReason::TooLarge,
                });
            }
            proof {
                lemma_truncation(self.uint.digits@, 4);
                lemma_top_set_iff(self.uint.digits@.take(4));
                lemma_ival_range(self.uint.digits@.take(4));
            }
        }
        // the value is the signed value of the low four digits
        let d0 = self.uint.digits[0];
        let d1 = self.uint.digits[1];
        let d2 = self.uint.digits[2];
        let d3 = self.uint.digits[3];
        let u: u128 = d0 as u128 + d1 as u128 * 0x1_0000_0000
            + d2 as u128 * 0x1_0000_0000_0000_0000
            + d3 as u128 * 0x1_0000_0000_0000_0000_0000_0000;
        proof {
            let s4 = self.uint.digits@.take(4);
            lemma_low4_value(self.uint.digits@);
            lemma_base_value();
            lemma_pow2_adds(32, 32);
            lemma_pow2_adds(64, 32);
            assert(pow2(96) == 0x1_0000_0000_0000_0000_0000_0000);
            assert(u == uval(s4));
            lemma_top_set_iff(s4);
            lemma_uval_bound(s4);
            if self.n() > 4 {
                lemma_truncation(self.uint.digits@, 4);
            } else {
                assert(s4 =~= self.uint.digits@);
            }
        }
        if u <= 0x7FFF_FFFF_FFFF_FFFF_FFFF_FFFF_FFFF_FFFF {
            Ok(u as i128)
        } else {
            Ok(-((0xFFFF_FFFF_FFFF_FFFF_FFFF_FFFF_FFFF_FFFFu128 - u) as i128) - 1)
        }
    }

    /// The digit count as a machine value.
    pub fn digits_len(&self) -> (r: usize)
        ensures
            r == self.n(),
    {
        self.uint.digits.len()
    }
}

impl BInt {
    /// The decision step of a float-to-integer conversion, after the sign
    /// and the magnitude have been split off: a failed magnitude conversion
    /// propagates; a non-negative input is the magnitude's bits reinterpreted;
    /// a negative input is their two's-complement negation.
    pub fn from_float_parts(negative: bool, mag: Result<BUint, TryFromIntError>) -> (r: Result<
        BInt,
        TryFromIntError,
    >)
        requires
            mag matches Ok(m) ==> m.wf(),
        ensures
            mag matches Err(e) ==> r matches Err(e2) && e2.reason == e.reason,
            mag matches Ok(m) ==> r matches Ok(v) && v.wf() && v.n() == m.n()
                && v.uint.uval() == (if negative {
                    if m.uval() == 0 { 0int } else { pow2(32 * m.n()) - m.uval() }
                } else {
                    m.uval() as int
                }),
            mag matches Ok(m) ==> ((negative && m.uval() <= pow2((32 * m.n() - 1) as nat))
                ==> (r matches Ok(v) && v.ival() == -(m.uval() as int))),
            mag matches Ok(m) ==> ((!negative && m.uval() < pow2((32 * m.n() - 1) as nat))
                ==> (r matches Ok(v) && v.ival() == m.uval())),
    {
        match mag {
            Err(e) => Err(e),
            Ok(m) => {
                if negative {
                    let u = m.wrapping_neg_mag();
                    proof {
                        lemma_top_set_iff(u.digits@);
                        lemma_top_set_iff(m.digits@);
                        lemma_uval_bound(m.digits@);
                        lemma_pow2_adds((32 * m.n() - 1) as nat, 1);
                        assert(pow2(1) == 2) by { lemma2_to64(); }
                        lemma_pow2_pos((32 * m.n() - 1) as nat);
                    }
                    Ok(BInt::from_bits(u))
                } else {
                    proof {
                        lemma_top_set_iff(m.digits@);
                    }
                    Ok(BInt::from_bits(m))
                }
            },
        }
    }

    /// Reinterpret a magnitude as a signed value: succeeds exactly when the
    /// top bit is clear, and fails as too large otherwise.
    pub fn try_from_bits(u: BUint) -> (r: Result<BInt, TryFromIntError>)
        requires
            u.wf(),
        ensures
            r is Ok <==> u.uval() <= max_ival(u.n()),
            r matches Ok(v) ==> v.wf() && v.n() == u.n() && v.ival() == u.uval(),
            r matches Err(e) ==> e.reason == TryFromReason::TooLarge,
    {
        proof {
            lemma_top_set_iff(u.digits@);
            lemma_pow2_pos((32 * u.n() - 1) as nat);
        }
        if u.top_bit() {
            Err(TryFromIntError {
                from: "BUint",
                to: "Bint",
                reason: TryFromReason::TooLarge,
            })
        } else {
            Ok(BInt::from_bits(u))
        }
    }

    /// A native unsigned 128-bit value, failing as too large when it does
    /// not fit below the sign bit.
    pub fn from_u128(n: usize, v: u128) -> (r: Result<BInt, TryFromIntError>)
        requires
            4 <= n <= crate::uint::MAX_DIGITS,
        ensures
            r is Ok <==> v <= max_ival(n as nat),
            r matches Ok(w) ==> w.wf() && w.n() == n && w.ival() == v,
            r matches Err(e) ==> e.reason == TryFromReason::TooLarge,
    {
        BInt::try_from_bits(BUint::from_u128(n, v))
    }

    /// The magnitude bits of a non-negative value; a negative value reports
    /// a typed failure.
    pub fn try_to_bits(&self) -> (r: Result<BUint, TryFromIntError>)
        requires
            self.wf(),
        ensures
            r is Ok <==> self.ival() >= 0,
            r matches Ok(u) ==> u.wf() && u.n() == self.n() && u.uval() == self.ival(),
            r matches Err(e) ==> e.reason == TryFromReason::Negative,
    {
        proof {
            lemma_top_set_iff(self.uint.digits@);
        }
        if self.is_negative() {
            Err(TryFromIntError {
                from: "Bint",
                to: "BUint",
                reason: TryFromReason::Negative,
            })
        } else {
            Ok(self.uint.dup())
        }
    }
}

impl BintTest {
    /// Sign-extend a native signed 128-bit value, as the signed core does.
    pub fn from_i128(n: usize, v: i128) -> (r: BintTest)
        requires
            4 <= n <= crate::uint::MAX_DIGITS,
        ensures
            r.wf(),
            r.n() == n,
            r.ival() == v,
    {
        BintTest { uint: BInt::from_i128(n, v).to_bits() }
    }
}

/// Any value of a native 128-bit integer stays representable at any width
/// of at least as many bits, so the round trip through the core is exact.
pub proof fn lemma_i128_widening(n: nat, v: int)
    requires
        n >= 4,
        -(pow2(127) as int) <= v < pow2(127),
    ensures
        min_ival(n) <= v <= max_ival(n),
{
    if 32 * n - 1 > 127 {
        lemma_pow2_strictly_increases(127, (32 * n - 1) as nat);
    }
}

/// The unsigned value of the low four digits, assembled at native weights.
proof fn lemma_low4_value(s: Seq<u32>)
    requires
        s.len() >= 4,
    ensures
        uval(s.take(4)) == s[0] + s[1] * pow2(32) + s[2] * pow2(64) + s[3] * pow2(96),
{
    let t = s.take(4);
    assert(pow2(0) == 1) by { lemma2_to64(); }
    lemma_uval_take_succ(t, 0);
    lemma_uval_take_succ(t, 1);
    lemma_uval_take_succ(t, 2);
    lemma_uval_take_succ(t, 3);
    assert(t.take(0).len() == 0);
    assert(t.take(4) =~= t);
    assert(t.take(1) =~= s.take(1));
    assert(t[0] == s[0] && t[1] == s[1] && t[2] == s[2] && t[3] == s[3]);
    vstd::arithmetic::mul::lemma_mul_basics(s[0] as int);
}

} // verus!
