//! The magnitude engine: an unsigned fixed-width integer stored as a vector
//! of digits, least-significant first. The digit count is fixed when a value
//! is built and every operation preserves it.

use core::cmp::Ordering;
use vstd::prelude::*;
use vstd::arithmetic::power2::{pow2, lemma_pow2_adds, lemma_pow2_pos, lemma2_to64};
use vstd::arithmetic::div_mod::{lemma_fundamental_div_mod, lemma_fundamental_div_mod_converse,
    lemma_small_mod, lemma_breakdown};
use vstd::arithmetic::mul::lemma_mul_is_distributive_sub;
use crate::vals::{uval, base, lemma_base_value, lemma_uval_bound, lemma_uval_take_succ,
    lemma_uval_split, lemma_uval_zero, lemma_uval_parity, lemma_uval_lt};

verus! {

/// Upper bound on the digit count, so that the bit width fits in a `u32`.
pub const MAX_DIGITS: usize = 0x0400_0000;

/// An unsigned fixed-width integer: a fixed-length little-endian digit vector.
#[derive(Debug)]
pub struct BUint {
    pub digits: Vec<u32>,
}

impl BUint {
    /// A value is well formed when it has at least one digit and its bit
    /// width fits in a `u32`.
    pub open spec fn wf(&self) -> bool {
        1 <= self.digits@.len() <= MAX_DIGITS
    }

    /// The digit count.
    pub open spec fn n(&self) -> nat {
        self.digits@.len()
    }

    /// The unsigned numeric value.
    pub open spec fn uval(&self) -> nat {
        uval(self.digits@)
    }

    /// The all-zero value of `n` digits.
    pub fn zero(n: usize) -> (r: BUint)
        requires
            1 <= n <= MAX_DIGITS,
        ensures
            r.wf(),
            r.n() == n,
            r.uval() == 0,
    {
        let mut digits: Vec<u32> = Vec::new();
        let mut i: usize = 0;
        while i < n
            invariant
                i <= n,
                digits@.len() == i,
                uval(digits@) == 0,
            decreases n - i,
        {
            proof {
                crate::vals::lemma_uval_push(digits@, 0);
            }
            digits.push(0);
            i += 1;
        }
        BUint { digits }
    }

    /// The all-ones value of `n` digits: the largest representable magnitude.
    pub fn max(n: usize) -> (r: BUint)
        requires
            1 <= n <= MAX_DIGITS,
        ensures
            r.wf(),
            r.n() == n,
            r.uval() == pow2(32 * n as nat) - 1,
    {
        let mut digits: Vec<u32> = Vec::new();
        let mut i: usize = 0;
        proof {
            assert(pow2(0) == 1) by { lemma2_to64(); }
        }
        while i < n
            invariant
                i <= n,
                digits@.len() == i,
                uval(digits@) == pow2(32 * i as nat) - 1,
            decreases n - i,
        {
            proof {
                crate::vals::lemma_uval_push(digits@, 0xFFFF_FFFF);
                lemma_pow2_adds(32 * i as nat, 32);
                lemma_base_value();
                lemma_mul_is_distributive_sub(pow2(32 * i as nat) as int, base() as int, 1);
            }
            digits.push(0xFFFF_FFFF);
            i += 1;
        }
        BUint { digits }
    }

    /// Whether the value is zero.
    pub fn is_zero(&self) -> (r: bool)
        requires
            self.wf(),
        ensures
            r <==> self.uval() == 0,
    {
        let n = self.digits.len();
        let mut i: usize = 0;
        while i < n
            invariant
                i <= n,
                n == self.n(),
                forall|j: int| 0 <= j < i ==> self.digits@[j] == 0,
            decreases n - i,
        {
            if self.digits[i] != 0 {
                proof {
                    lemma_uval_zero(self.digits@);
                }
                return false;
            }
            i += 1;
        }
        proof {
            lemma_uval_zero(self.digits@);
        }
        true
    }

    /// Addition with carry in and out; the result keeps the digit count and
    /// the carry carries the overflowing weight.
    pub fn add_carry(&self, rhs: &BUint, carry_in: bool) -> (r: (BUint, bool))
        requires
            self.wf(),
            rhs.wf(),
            self.n() == rhs.n(),
        ensures
            r.0.wf(),
            r.0.n() == self.n(),
            r.0.uval() + (if r.1 { pow2(32 * self.n()) as int } else { 0 })
                == self.uval() + rhs.uval() + (if carry_in { 1int } else { 0 }),
    {
        let n = self.digits.len();
        let mut out: Vec<u32> = Vec::new();
        let mut carry: u64 = if carry_in { 1 } else { 0 };
        let mut i: usize = 0;
        proof {
            lemma_base_value();
            assert(pow2(0) == 1) by { lemma2_to64(); }
        }
        while i < n
            invariant
                i <= n,
                n == self.n() == rhs.n(),
                out@.len() == i,
                carry <= 1,
                base() == 0x1_0000_0000,
                uval(out@) + carry * pow2(32 * i as nat)
                    == uval(self.digits@.take(i as int)) + uval(rhs.digits@.take(i as int))
                        + (if carry_in { 1int } else { 0 }),
            decreases n - i,
        {
            let t: u64 = self.digits[i] as u64 + rhs.digits[i] as u64 + carry;
            let d: u32 = (t % 0x1_0000_0000) as u32;
            let c: u64 = t / 0x1_0000_0000;
            proof {
                let p = pow2(32 * i as nat) as int;
                let pb = pow2(32 * (i + 1) as nat) as int;
                let a = self.digits@[i as int] as int;
                let b = rhs.digits@[i as int] as int;
                let co = carry as int;
                crate::vals::lemma_uval_push(out@, d);
                lemma_uval_take_succ(self.digits@, i as int);
                lemma_uval_take_succ(rhs.digits@, i as int);
                lemma_pow2_adds(32 * i as nat, 32);
                assert(pb == p * 0x1_0000_0000);
                vstd::arithmetic::div_mod::lemma_fundamental_div_mod(t as int, 0x1_0000_0000);
                assert(d + 0x1_0000_0000 * (c as int) == a + b + co);
                assert(d * p + (c as int) * pb == a * p + b * p + co * p) by (nonlinear_arith)
                    requires
                        pb == p * 0x1_0000_0000,
                        d + 0x1_0000_0000 * (c as int) == a + b + co,
                ;
            }
            out.push(d);
            carry = c;
            i += 1;
        }
        proof {
            assert(self.digits@.take(n as int) =~= self.digits@);
            assert(rhs.digits@.take(n as int) =~= rhs.digits@);
        }
        (BUint { digits: out }, carry == 1)
    }

    /// An independent copy with the same digits.
    pub fn dup(&self) -> (r: BUint)
        requires
            self.wf(),
        ensures
            r.digits@ == self.digits@,
    {
        let n = self.digits.len();
        let mut out: Vec<u32> = Vec::new();
        let mut i: usize = 0;
        while i < n
            invariant
                i <= n,
                n == self.n(),
                out@ =~= self.digits@.take(i as int),
            decreases n - i,
        {
            out.push(self.digits[i]);
            i += 1;
        }
        proof {
            assert(self.digits@.take(n as int) =~= self.digits@);
        }
        BUint { digits: out }
    }

    /// Subtraction with borrow in and out; a set borrow means the true
    /// difference was negative and the result wrapped by the full weight.
    pub fn sub_borrow(&self, rhs: &BUint, borrow_in: bool) -> (r: (BUint, bool))
        requires
            self.wf(),
            rhs.wf(),
            self.n() == rhs.n(),
        ensures
            r.0.wf(),
            r.0.n() == self.n(),
            r.0.uval() - (if r.1 { pow2(32 * self.n()) as int } else { 0 })
                == self.uval() - rhs.uval() - (if borrow_in { 1int } else { 0 }),
    {
        let n = self.digits.len();
        let mut out: Vec<u32> = Vec::new();
        let mut borrow: i64 = if borrow_in { 1 } else { 0 };
        let mut i: usize = 0;
        proof {
            lemma_base_value();
            assert(pow2(0) == 1) by { lemma2_to64(); }
        }
        while i < n
            invariant
                i <= n,
                n == self.n() == rhs.n(),
                out@.len() == i,
                0 <= borrow <= 1,
                base() == 0x1_0000_0000,
                uval(out@) - borrow * pow2(32 * i as nat)
                    == uval(self.digits@.take(i as int)) - uval(rhs.digits@.take(i as int))
                        - (if borrow_in { 1int } else { 0 }),
            decreases n - i,
        {
            let t: i64 = self.digits[i] as i64 - rhs.digits[i] as i64 - borrow;
            let d: u32 = if t < 0 {
                (t + 0x1_0000_0000) as u32
            } else {
                t as u32
            };
            let bo: i64 = if t < 0 { 1 } else { 0 };
            proof {
                let p = pow2(32 * i as nat) as int;
                let pb = pow2(32 * (i + 1) as nat) as int;
                let a = self.digits@[i as int] as int;
                let b = rhs.digits@[i as int] as int;
                crate::vals::lemma_uval_push(out@, d);
                lemma_uval_take_succ(self.digits@, i as int);
                lemma_uval_take_succ(rhs.digits@, i as int);
                lemma_pow2_adds(32 * i as nat, 32);
                assert(pb == p * 0x1_0000_0000);
                assert(d - 0x1_0000_0000 * (bo as int) == a - b - borrow);
                assert(d * p - (bo as int) * pb == a * p - b * p - (borrow as int) * p)
                    by (nonlinear_arith)
                    requires
                        pb == p * 0x1_0000_0000,
                        d - 0x1_0000_0000 * (bo as int) == a - b - borrow,
                ;
            }
            out.push(d);
            borrow = bo;
            i += 1;
        }
        proof {
            assert(self.digits@.take(n as int) =~= self.digits@);
            assert(rhs.digits@.take(n as int) =~= rhs.digits@);
        }
        (BUint { digits: out }, borrow == 1)
    }

    /// Unsigned digit-by-digit comparison, most significant digit first.
    pub fn cmp_mags(&self, rhs: &BUint) -> (r: Ordering)
        requires
            self.wf(),
            rhs.wf(),
            self.n() == rhs.n(),
        ensures
            r == Ordering::Less <==> self.uval() < rhs.uval(),
            r == Ordering::Equal <==> self.uval() == rhs.uval(),
            r == Ordering::Greater <==> self.uval() > rhs.uval(),
    {
        let n = self.digits.len();
        let mut i = n;
        while i > 0
            invariant
                i <= n,
                n == self.n() == rhs.n(),
                forall|j: int| i <= j < n ==> self.digits@[j] == rhs.digits@[j],
            decreases i,
        {
            i -= 1;
            if self.digits[i] < rhs.digits[i] {
                proof {
                    lemma_uval_lt(self.digits@, rhs.digits@, i as int);
                }
                return Ordering::Less;
            }
            if self.digits[i] > rhs.digits[i] {
                proof {
                    lemma_uval_lt(rhs.digits@, self.digits@, i as int);
                }
                return Ordering::Greater;
            }
        }
        proof {
            assert(self.digits@ =~= rhs.digits@);
        }
        Ordering::Equal
    }

    /// One-bit right shift, filling the vacated top bit with `fill`.
    pub fn shr1(&self, fill: bool) -> (r: BUint)
        requires
            self.wf(),
        ensures
            r.wf(),
            r.n() == self.n(),
            r.uval() == self.uval() / 2
                + (if fill { pow2((32 * self.n() - 1) as nat) as int } else { 0 }),
    {
        let n = self.digits.len();
        let fillv: u32 = if fill { 1 } else { 0 };
        let b0: u32 = self.digits[0] % 2;
        let mut out: Vec<u32> = Vec::new();
        let mut i: usize = 0;
        proof {
            lemma_base_value();
            assert(pow2(0) == 1) by { lemma2_to64(); }
            let bi0 = (self.digits@[0] % 2) as int;
            assert(bi0 * pow2(0) == bi0) by (nonlinear_arith)
                requires
                    pow2(0) == 1,
            ;
        }
        while i < n
            invariant
                i <= n,
                n == self.n(),
                out@.len() == i,
                b0 == self.digits@[0] % 2,
                fillv == (if fill { 1int } else { 0 }),
                base() == 0x1_0000_0000,
                2 * uval(out@) + b0 == uval(self.digits@.take(i as int))
                    + (if i < n { (self.digits@[i as int] % 2) as int } else { fillv as int })
                        * pow2(32 * i as nat),
            decreases n - i,
        {
            let bnext: u32 = if i + 1 < n { self.digits[i + 1] % 2 } else { fillv };
            let d: u32 = self.digits[i] / 2 + bnext * 0x8000_0000;
            proof {
                let p = pow2(32 * i as nat) as int;
                let pb = pow2(32 * (i + 1) as nat) as int;
                let x = self.digits@[i as int] as int;
                let bi = x % 2;
                crate::vals::lemma_uval_push(out@, d);
                lemma_uval_take_succ(self.digits@, i as int);
                lemma_pow2_adds(32 * i as nat, 32);
                lemma_fundamental_div_mod(x, 2);
                lemma_base_value();
                assert(pow2(31) == 0x8000_0000);
                assert(2 * (d as int) + bi == x + bnext * 0x1_0000_0000);
                assert(2 * (d * p) + bi * p == x * p + (bnext as int) * pb)
                    by (nonlinear_arith)
                    requires
                        pb == p * 0x1_0000_0000,
                        2 * (d as int) + bi == x + bnext * 0x1_0000_0000,
                ;
            }
            out.push(d);
            i += 1;
        }
        proof {
            assert(self.digits@.take(n as int) =~= self.digits@);
            lemma_uval_parity(self.digits@);
            let xx = uval(self.digits@) as int;
            let u = uval(out@) as int;
            let f = if fill { 1int } else { 0 };
            lemma_fundamental_div_mod(xx, 2);
            lemma_pow2_adds((32 * n - 1) as nat, 1);
            assert(pow2(1) == 2) by { lemma2_to64(); }
            // 2u + x % 2 == x + f * 2^W  and  2^W == 2 * 2^(W-1)
            assert(2 * u + xx % 2 == xx + f * (2 * pow2((32 * n - 1) as nat)));
            assert(u == xx / 2 + f * pow2((32 * n - 1) as nat)) by (nonlinear_arith)
                requires
                    2 * u + xx % 2 == xx + f * (2 * pow2((32 * n - 1) as nat)),
                    xx == 2 * (xx / 2) + xx % 2,
            ;
        }
        BUint { digits: out }
    }

    /// A single digit widened to `n` digits.
    pub fn from_digit(n: usize, d: u32) -> (r: BUint)
        requires
            1 <= n <= MAX_DIGITS,
        ensures
            r.wf(),
            r.n() == n,
            r.uval() == d,
    {
        let mut digits: Vec<u32> = Vec::new();
        digits.push(d);
        proof {
            assert(uval(digits@.drop_first()) == 0);
            vstd::arithmetic::mul::lemma_mul_basics(base() as int);
            assert(uval(digits@) == d);
        }
        let mut i: usize = 1;
        while i < n
            invariant
                1 <= i <= n,
                digits@.len() == i,
                uval(digits@) == d,
            decreases n - i,
        {
            proof {
                crate::vals::lemma_uval_push(digits@, 0);
                vstd::arithmetic::mul::lemma_mul_basics(pow2(32 * i as nat) as int);
            }
            digits.push(0);
            i += 1;
        }
        BUint { digits }
    }

    /// The same value with zero digits appended on top.
    pub fn extend(&self, m: usize) -> (r: BUint)
        requires
            self.wf(),
            self.n() <= m <= MAX_DIGITS,
        ensures
            r.wf(),
            r.n() == m,
            r.uval() == self.uval(),
    {
        let mut out = self.dup();
        let mut i = out.digits.len();
        while i < m
            invariant
                i <= m,
                out.digits@.len() == i,
                uval(out.digits@) == self.uval(),
            decreases m - i,
        {
            proof {
                crate::vals::lemma_uval_push(out.digits@, 0);
                vstd::arithmetic::mul::lemma_mul_basics(pow2(32 * i as nat) as int);
            }
            out.digits.push(0);
            i += 1;
        }
        out
    }

    /// Whether the value fits in the low `m` digits, i.e. all digits above
    /// them are zero.
    pub fn fits(&self, m: usize) -> (r: bool)
        requires
            self.wf(),
            1 <= m <= self.n(),
        ensures
            r <==> self.uval() < pow2(32 * m as nat),
    {
        let n = self.digits.len();
        let mut j: usize = m;
        while j < n
            invariant
                m <= j <= n,
                n == self.n(),
                self.wf(),
                1 <= m,
                forall|x: int| m <= x < j ==> self.digits@[x] == 0u32,
            decreases n - j,
        {
            if self.digits[j] != 0 {
                proof {
                    assert(self.digits@.skip(m as int)[j - m] != 0u32);
                    lemma_uval_zero(self.digits@.skip(m as int));
                    lemma_uval_split(self.digits@, m as int);
                    lemma_pow2_pos(32 * m as nat);
                    let l = uval(self.digits@.take(m as int)) as int;
                    let h = uval(self.digits@.skip(m as int)) as int;
                    let pm = pow2(32 * m as nat) as int;
                    assert(l + pm * h >= pm) by (nonlinear_arith)
                        requires
                            h >= 1,
                            l >= 0,
                            pm > 0,
                    ;
                }
                return false;
            }
            j += 1;
        }
        proof {
            assert(forall|x: int| 0 <= x < self.digits@.skip(m as int).len()
                ==> self.digits@.skip(m as int)[x] == self.digits@[x + m]);
            lemma_uval_zero(self.digits@.skip(m as int));
            lemma_uval_split(self.digits@, m as int);
            lemma_uval_bound(self.digits@.take(m as int));
            assert(pow2(32 * m as nat) * uval(self.digits@.skip(m as int)) == 0)
                by (nonlinear_arith)
                requires
                    uval(self.digits@.skip(m as int)) == 0,
            ;
        }
        true
    }

    /// The low `m` digits; the value must fit in them.
    pub fn truncated(&self, m: usize) -> (r: BUint)
        requires
            self.wf(),
            1 <= m <= self.n(),
            self.uval() < pow2(32 * m as nat),
        ensures
            r.wf(),
            r.n() == m,
            r.uval() == self.uval(),
    {
        let mut out: Vec<u32> = Vec::new();
        let mut i: usize = 0;
        while i < m
            invariant
                i <= m <= self.n(),
                self.wf(),
                out@ =~= self.digits@.take(i as int),
            decreases m - i,
        {
            out.push(self.digits[i]);
            i += 1;
        }
        proof {
            lemma_uval_split(self.digits@, m as int);
            lemma_uval_bound(self.digits@.take(m as int));
            let l = uval(self.digits@.take(m as int)) as int;
            let h = uval(self.digits@.skip(m as int)) as int;
            let pm = pow2(32 * m as nat) as int;
            if h >= 1 {
                assert(l + pm * h >= pm) by (nonlinear_arith)
                    requires
                        h >= 1,
                        l >= 0,
                        pm > 0,
                ;
            }
            assert(h == 0);
            assert(pm * h == 0) by (nonlinear_arith)
                requires
                    h == 0,
            ;
        }
        BUint { digits: out }
    }

    /// Binary long division: quotient and remainder of the magnitudes.
    #[verifier::rlimit(100)]
    pub fn divmod(&self, rhs: &BUint) -> (r: (BUint, BUint))
        requires
            self.wf(),
            rhs.wf(),
            self.n() == rhs.n(),
            self.n() < MAX_DIGITS,
            rhs.uval() > 0,
        ensures
            r.0.wf(),
            r.1.wf(),
            r.0.n() == self.n(),
            r.1.n() == self.n(),
            r.0.uval() == self.uval() / rhs.uval(),
            r.1.uval() == self.uval() % rhs.uval(),
    {
        let n = self.digits.len();
        let w: usize = n * 32;
        let ghost aval = self.uval() as int;
        let ghost bval = rhs.uval() as int;
        let ghost pw = pow2(32 * n as nat) as int;
        let mut aa = self.dup();
        let b1 = rhs.extend(n + 1);
        let mut rem = BUint::zero(n + 1);
        let mut q = BUint::zero(n);
        let mut i: usize = 0;
        proof {
            lemma_uval_bound(self.digits@);
            lemma_uval_bound(rhs.digits@);
            assert(pow2(0) == 1) by { lemma2_to64(); }
            lemma_small_mod(self.uval(), pw as nat);
            vstd::arithmetic::div_mod::lemma_basic_div(aval, pw);
            vstd::arithmetic::mul::lemma_mul_basics(aval);
            vstd::arithmetic::mul::lemma_mul_basics(bval);
            lemma_pow2_pos(32 * (n + 1) as nat);
            lemma_pow2_pos(32 * n as nat);
            assert((aval % pw) * (pow2(0) as int) == aval) by (nonlinear_arith)
                requires
                    aval % pw == aval,
                    pow2(0) == 1,
            ;
            assert(q.uval() * bval == 0) by (nonlinear_arith)
                requires
                    q.uval() == 0,
            ;
        }
        while i < w
            invariant
                i <= w,
                w == 32 * n,
                n == self.n() == q.n() == aa.n(),
                rem.n() == n + 1 == b1.n(),
                aa.wf(),
                rem.wf(),
                q.wf(),
                b1.wf(),
                n < MAX_DIGITS,
                aval == self.uval(),
                bval == b1.uval(),
                0 < bval,
                bval < pw,
                pw == pow2(32 * n as nat),
                aval < pw,
                0 <= aval,
                // the shifted dividend keeps the unprocessed low bits
                aa.uval() == (aval % (pow2((w - i) as nat) as int)) * pow2(i as nat),
                // processed high bits = quotient-so-far times divisor plus remainder
                q.uval() * bval + rem.uval() == aval / (pow2((w - i) as nat) as int),
                rem.uval() < bval,
                q.uval() < pow2(i as nat),
            decreases w - i,
        {
            let bit = aa.digits[n - 1] >= 0x8000_0000;
            let ghost di = (w - i - 1) as nat;
            let ghost pd = pow2(di) as int;
            let ghost pi = pow2(i as nat) as int;
            let ghost pw1 = pow2((w - 1) as nat) as int;
            let ghost bitv = (aval / pd) % 2int;
            proof {
                lemma_pow2_pos(di);
                lemma_pow2_pos(i as nat);
                lemma_pow2_pos((w - i) as nat);
                lemma_pow2_adds(di, 1);
                lemma_pow2_adds(di, i as nat);
                lemma_pow2_adds((w - 1) as nat, 1);
                lemma_pow2_adds(i as nat, 1);
                assert(pow2(1) == 2) by { lemma2_to64(); }
                assert(pd * 2 == pow2((w - i) as nat));
                assert(pd * pi == pw1);
                assert(pw1 * 2 == pw);
                crate::vals::lemma_top_set_iff(aa.digits@);
                // split the unprocessed bits at the next dividend bit
                let rlow = aval % (pow2((w - i) as nat) as int);
                lemma_breakdown(aval, pd, 2);
                assert(rlow == pd * bitv + aval % pd);
                lemma_fundamental_div_mod(aval, pd);
                assert(aa.uval() == (pd * bitv + aval % pd) * pi) by (nonlinear_arith)
                    requires
                        aa.uval() == rlow * pi,
                        rlow == pd * bitv + aval % pd,
                ;
                assert((aval % pd) * pi >= 0 && (aval % pd) * pi <= pw1 - pi) by (nonlinear_arith)
                    requires
                        aval % pd < pd,
                        aval % pd >= 0,
                        pi > 0,
                        pd * pi == pw1,
                ;
                assert(aa.uval() == bitv * pw1 + (aval % pd) * pi) by (nonlinear_arith)
                    requires
                        aa.uval() == (pd * bitv + aval % pd) * pi,
                        pd * pi == pw1,
                ;
                if bitv == 1 {
                    assert(bitv * pw1 == pw1) by (nonlinear_arith)
                        requires
                            bitv == 1,
                    ;
                    assert(aa.uval() >= pw1);
                } else {
                    assert(bitv * pw1 == 0) by (nonlinear_arith)
                        requires
                            bitv == 0,
                    ;
                    assert(aa.uval() < pw1);
                }
                assert(bit == (bitv == 1));
            }
            // shift the dividend copy left by one
            let (aa2, _c) = aa.add_carry(&aa, false);
            // bring the next dividend bit into the remainder
            let (rem2, rc) = rem.add_carry(&rem, bit);
            proof {
                // the doubled remainder cannot carry out of n + 1 digits
                lemma_pow2_adds(32 * n as nat, 32);
                lemma_base_value();
                if rc {
                    assert(rem2.uval() + pow2(32 * (n + 1) as nat) <= 2 * bval);
                    assert(pow2(32 * (n + 1) as nat) == pw * 0x1_0000_0000);
                    assert(2 * bval < pw * 4) by (nonlinear_arith)
                        requires
                            0 < bval,
                            bval < pw,
                    ;
                    assert(pw * 4 <= pw * 0x1_0000_0000) by (nonlinear_arith)
                        requires
                            pw > 0,
                    ;
                    assert(false);
                }
                assert(rem2.uval() == 2 * rem.uval() + (if bitv == 1 { 1int } else { 0 }));
            }
            let mut rem3 = rem2;
            let qbit: bool = match rem3.cmp_mags(&b1) {
                Ordering::Less => false,
                _ => true,
            };
            if qbit {
                let (rem4, bo) = rem3.sub_borrow(&b1, false);
                proof {
                    lemma_uval_bound(rem4.digits@);
                    lemma_pow2_pos(32 * (n + 1) as nat);
                    assert(!bo);
                    assert(rem4.uval() == rem3.uval() - bval);
                }
                rem3 = rem4;
            }
            let (q2, qc) = q.add_carry(&q, qbit);
            proof {
                lemma_pow2_adds(i as nat, 1);
                assert(pow2(1) == 2) by { lemma2_to64(); }
                // the doubled quotient cannot carry out of n digits
                if qc {
                    assert(q2.uval() + pw <= 2 * q.uval() + 1);
                    assert(2 * q.uval() + 1 <= 2 * (pow2(i as nat) - 1) + 1);
                    if i + 1 < 32 * n {
                        vstd::arithmetic::power2::lemma_pow2_strictly_increases((i + 1) as nat,
                            32 * n as nat);
                    }
                    assert(false);
                }
                // one more dividend bit enters the running high part
                lemma_fundamental_div_mod(aval, pd);
                vstd::arithmetic::div_mod::lemma_div_denominator(aval, pd, 2);
                let h0 = aval / (pow2((w - i) as nat) as int);
                let h1 = aval / pd;
                assert(h1 == 2 * h0 + bitv) by {
                    lemma_fundamental_div_mod(aval / pd, 2);
                    assert(pd * 2 == pow2((w - i) as nat));
                }
                // the shifted dividend drops the consumed bit
                lemma_uval_bound(aa2.digits@);
                assert(aa2.uval() == (aval % pd) * (pi * 2)) by (nonlinear_arith)
                    requires
                        aa2.uval() + (if _c { pw } else { 0 }) == 2 * aa.uval(),
                        aa.uval() == bitv * pw1 + (aval % pd) * pi,
                        bitv == 0 || bitv == 1,
                        pw1 * 2 == pw,
                        aa2.uval() >= 0,
                        aa2.uval() < pw,
                        (aval % pd) * pi <= pw1 - pi,
                        (aval % pd) * pi >= 0,
                        pi > 0,
                        pw > 0,
                ;
                assert(pi * 2 == pow2((i + 1) as nat));
                // quotient and remainder keep the division identity
                if qbit {
                    assert(q2.uval() * bval + rem3.uval() == h1) by (nonlinear_arith)
                        requires
                            q2.uval() == 2 * q.uval() + 1,
                            rem3.uval() == rem2.uval() - bval,
                            rem2.uval() == 2 * rem.uval() + (if bitv == 1 { 1int } else { 0 }),
                            q.uval() * bval + rem.uval() == h0,
                            h1 == 2 * h0 + bitv,
                            bitv == (if bitv == 1 { 1int } else { 0 }),
                    ;
                } else {
                    assert(q2.uval() * bval + rem3.uval() == h1) by (nonlinear_arith)
                        requires
                            q2.uval() == 2 * q.uval(),
                            rem3.uval() == rem2.uval(),
                            rem2.uval() == 2 * rem.uval() + (if bitv == 1 { 1int } else { 0 }),
                            q.uval() * bval + rem.uval() == h0,
                            h1 == 2 * h0 + bitv,
                            bitv == (if bitv == 1 { 1int } else { 0 }),
                    ;
                }
            }
            aa = aa2;
            rem = rem3;
            q = q2;
            i += 1;
        }
        proof {
            assert(pow2(0) == 1) by { lemma2_to64(); }
            vstd::arithmetic::div_mod::lemma_div_basics(aval);
            assert(aval / (pow2((w - i) as nat) as int) == aval);
            lemma_fundamental_div_mod_converse(aval, bval, q.uval() as int, rem.uval() as int);
        }
        let remn = rem.truncated(n);
        (q, remn)
    }

    /// Whether the top bit (the sign position) is set.
    pub fn top_bit(&self) -> (r: bool)
        requires
            self.wf(),
        ensures
            r == crate::vals::top_set(self.digits@),
    {
        self.digits[self.digits.len() - 1] >= 0x8000_0000
    }

    /// The two's-complement negation of the bit pattern.
    pub fn wrapping_neg_mag(&self) -> (r: BUint)
        requires
            self.wf(),
        ensures
            r.wf(),
            r.n() == self.n(),
            r.uval() == (if self.uval() == 0 { 0int } else {
                pow2(32 * self.n()) - self.uval()
            }),
    {
        let z = BUint::zero(self.digits.len());
        let (out, _bo) = z.sub_borrow(self, false);
        proof {
            lemma_uval_bound(self.digits@);
            lemma_uval_bound(out.digits@);
            lemma_pow2_pos(32 * self.n());
        }
        out
    }

    /// The value plus one; it must not overflow the width.
    pub fn add_one(&self) -> (r: BUint)
        requires
            self.wf(),
            self.uval() + 1 < pow2(32 * self.n()),
        ensures
            r.wf(),
            r.n() == self.n(),
            r.uval() == self.uval() + 1,
    {
        let z = BUint::zero(self.digits.len());
        let (out, _c) = self.add_carry(&z, true);
        proof {
            lemma_uval_bound(out.digits@);
            lemma_pow2_pos(32 * self.n());
        }
        out
    }

    /// Left shift that drops bits carried past the width.
    pub fn wrapping_shl(&self, s: u32) -> (r: BUint)
        requires
            self.wf(),
            s <= 32 * self.n(),
        ensures
            r.wf(),
            r.n() == self.n(),
            r.uval() == (self.uval() * pow2(s as nat)) % pow2(32 * self.n()),
    {
        let ghost pw = pow2(32 * self.n()) as int;
        let ghost x = self.uval() as int;
        let mut cur = self.dup();
        let mut j: u32 = 0;
        proof {
            lemma_uval_bound(self.digits@);
            lemma_pow2_pos(32 * self.n());
            assert(pow2(0) == 1) by { lemma2_to64(); }
            lemma_small_mod(self.uval(), pow2(32 * self.n()));
            assert(x * 1 == x) by (nonlinear_arith);
        }
        while j < s
            invariant
                j <= s,
                s <= 32 * self.n(),
                self.wf(),
                cur.wf(),
                cur.n() == self.n(),
                x == self.uval(),
                pw == pow2(32 * self.n()),
                pw > 0,
                cur.uval() == (x * pow2(j as nat)) % pw,
            decreases s - j,
        {
            let (c2, _c) = cur.add_carry(&cur, false);
            proof {
                lemma_uval_bound(c2.digits@);
                lemma_pow2_adds(j as nat, 1);
                assert(pow2(1) == 2) by { lemma2_to64(); }
                let xj = x * pow2(j as nat) as int;
                // the doubled value, reduced by the width, is the next shift
                lemma_fundamental_div_mod_converse(2 * (cur.uval() as int), pw,
                    if _c { 1int } else { 0 }, c2.uval() as int);
                assert((2 * (cur.uval() as int)) % pw == c2.uval());
                vstd::arithmetic::div_mod::lemma_mul_mod_noop_left(xj, 2, pw);
                assert((xj % pw) * 2 == 2 * cur.uval());
                assert(xj * 2 == x * pow2((j + 1) as nat)) by (nonlinear_arith)
                    requires
                        xj == x * pow2(j as nat),
                        pow2((j + 1) as nat) == pow2(j as nat) * 2,
                ;
            }
            cur = c2;
            j += 1;
        }
        cur
    }

    /// Right shift of the magnitude, filling with zero bits.
    pub fn wrapping_shr(&self, s: u32) -> (r: BUint)
        requires
            self.wf(),
            s <= 32 * self.n(),
        ensures
            r.wf(),
            r.n() == self.n(),
            r.uval() == self.uval() / pow2(s as nat),
    {
        let ghost x = self.uval() as int;
        let mut cur = self.dup();
        let mut j: u32 = 0;
        proof {
            assert(pow2(0) == 1) by { lemma2_to64(); }
            vstd::arithmetic::div_mod::lemma_div_basics(x);
        }
        while j < s
            invariant
                j <= s,
                s <= 32 * self.n(),
                self.wf(),
                cur.wf(),
                cur.n() == self.n(),
                x == self.uval(),
                x >= 0,
                cur.uval() == x / (pow2(j as nat) as int),
            decreases s - j,
        {
            let c2 = cur.shr1(false);
            proof {
                lemma_pow2_adds(j as nat, 1);
                assert(pow2(1) == 2) by { lemma2_to64(); }
                lemma_pow2_pos(j as nat);
                vstd::arithmetic::div_mod::lemma_div_denominator(x, pow2(j as nat) as int, 2);
            }
            cur = c2;
            j += 1;
        }
        cur
    }

    /// The full double-width product of two equally wide magnitudes.
    #[verifier::rlimit(30)]
    pub fn mulfull(&self, rhs: &BUint) -> (r: BUint)
        requires
            self.wf(),
            rhs.wf(),
            self.n() == rhs.n(),
            2 * self.n() <= MAX_DIGITS,
        ensures
            r.wf(),
            r.n() == 2 * self.n(),
            r.uval() == self.uval() * rhs.uval(),
    {
        let n = self.digits.len();
        let w: usize = n * 32;
        let ghost aval = self.uval() as int;
        let ghost bval = rhs.uval() as int;
        let ghost pw = pow2(32 * n as nat) as int;
        let ghost pw2 = pow2(32 * (2 * n) as nat) as int;
        let mut acc = BUint::zero(2 * n);
        let mut sh = self.extend(2 * n);
        let mut bb = rhs.dup();
        let mut k: usize = 0;
        proof {
            lemma_uval_bound(self.digits@);
            lemma_uval_bound(rhs.digits@);
            assert(pow2(0) == 1) by { lemma2_to64(); }
            lemma_pow2_adds(32 * n as nat, 32 * n as nat);
            vstd::arithmetic::mul::lemma_mul_basics(aval);
            vstd::arithmetic::mul::lemma_mul_basics(bval);
            assert(bval % 1 == 0) by (nonlinear_arith);
            assert(aval * 0 == 0) by (nonlinear_arith);
        }
        while k < w
            invariant
                k <= w,
                w == 32 * n,
                n == self.n() == rhs.n() == bb.n(),
                acc.n() == 2 * n == sh.n(),
                acc.wf(),
                sh.wf(),
                bb.wf(),
                2 * n <= MAX_DIGITS,
                aval == self.uval(),
                bval == rhs.uval(),
                aval < pw,
                bval < pw,
                pw == pow2(32 * n as nat),
                pw2 == pow2(32 * (2 * n) as nat),
                pw2 == pw * pw,
                sh.uval() == aval * (pow2(k as nat) as int),
                bb.uval() == bval / (pow2(k as nat) as int),
                acc.uval() == aval * (bval % (pow2(k as nat) as int)),
            decreases w - k,
        {
            let ghost pk = pow2(k as nat) as int;
            let ghost pk1 = pow2((k + 1) as nat) as int;
            proof {
                lemma_pow2_adds(k as nat, 1);
                assert(pow2(1) == 2) by { lemma2_to64(); }
                lemma_pow2_pos(k as nat);
                lemma_uval_parity(bb.digits@);
                lemma_fundamental_div_mod(bval / pk, 2);
                vstd::arithmetic::div_mod::lemma_div_denominator(bval, pk, 2);
                lemma_breakdown(bval, pk, 2);
            }
            let bit = bb.digits[0] % 2 == 1;
            if bit {
                let (acc2, c) = acc.add_carry(&sh, false);
                proof {
                    // no carry: the partial product stays under the double width
                    let m = bval % pk;
                    assert(acc.uval() + sh.uval() == aval * m + aval * pk);
                    vstd::arithmetic::mul::lemma_mul_is_distributive_add(aval, m, pk);
                    assert(m + pk <= pw) by {
                        assert(bval % pk < pk);
                        lemma_pow2_adds(k as nat, 1);
                        if k + 1 < 32 * n {
                            vstd::arithmetic::power2::lemma_pow2_strictly_increases(
                                (k + 1) as nat, 32 * n as nat);
                        }
                    }
                    assert(aval * (m + pk) < pw * pw) by (nonlinear_arith)
                        requires
                            aval < pw,
                            m + pk <= pw,
                            aval >= 0,
                            m >= 0,
                            pk > 0,
                            pw > 0,
                    ;
                    if c {
                        assert(acc2.uval() + pw2 == aval * (m + pk));
                        assert(false);
                    }
                    // the new low window of the multiplier
                    assert(aval * (m + pk) == aval * (bval % pk1)) by (nonlinear_arith)
                        requires
                            bval % pk1 == pk * ((bval / pk) % 2) + bval % pk,
                            (bval / pk) % 2 == 1,
                            m == bval % pk,
                    ;
                }
                acc = acc2;
            } else {
                proof {
                    assert(bval % pk1 == bval % pk) by (nonlinear_arith)
                        requires
                            bval % pk1 == pk * ((bval / pk) % 2) + bval % pk,
                            (bval / pk) % 2 == 0,
                    ;
                }
            }
            let (sh2, sc) = sh.add_carry(&sh, false);
            proof {
                assert(sh.uval() * 2 == aval * pk1) by (nonlinear_arith)
                    requires
                        sh.uval() == aval * pk,
                        pk1 == pk * 2,
                ;
                assert(pk1 <= pw) by {
                    if k + 1 < 32 * n {
                        vstd::arithmetic::power2::lemma_pow2_strictly_increases(
                            (k + 1) as nat, 32 * n as nat);
                    }
                }
                assert(aval * pk1 < pw * pw) by (nonlinear_arith)
                    requires
                        aval < pw,
                        pk1 <= pw,
                        aval >= 0,
                        pk1 > 0,
                        pw > 0,
                ;
                if sc {
                    assert(false);
                }
            }
            let bb2 = bb.shr1(false);
            sh = sh2;
            bb = bb2;
            k += 1;
        }
        proof {
            lemma_small_mod(bval as nat, pow2(w as nat));
        }
        acc
    }
}

} // verus!
