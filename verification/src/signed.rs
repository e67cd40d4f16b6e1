//! The signed core: a magnitude reinterpreted as a two's-complement integer.
//! The sign is the top bit of the top digit; no separate sign field exists.

use vstd::prelude::*;
use vstd::arithmetic::power2::{pow2, lemma_pow2_adds, lemma2_to64};
use crate::uint::BUint;
use crate::vals::{uval, ival, top_set, min_ival, max_ival, lemma_uval_bound, lemma_top_set_iff,
    lemma_uval_zero, lemma_base_value, lemma_uval_push};

verus! {

/// A signed fixed-width integer: a two's-complement view of a magnitude.
#[derive(Debug)]
pub struct BInt {
    pub uint: BUint,
}

/// Exactly when a sum differing from an in-range value by a multiple of the
/// full weight is itself in range: only when the difference is zero.
pub proof fn lemma_window(s: int, v: int, d: int, w: nat)
    requires
        w >= 1,
        s == v + d,
        d == 0 || d >= pow2(w) as int || d <= -(pow2(w) as int),
        -(pow2((w - 1) as nat) as int) <= v < pow2((w - 1) as nat) as int,
    ensures
        d == 0 <==> -(pow2((w - 1) as nat) as int) <= s < pow2((w - 1) as nat) as int,
        d == 0 ==> s == v,
{
    lemma_pow2_adds((w - 1) as nat, 1);
    assert(pow2(1) == 2) by { lemma2_to64(); }
}

impl BInt {
    pub open spec fn wf(&self) -> bool {
        self.uint.wf()
    }

    pub open spec fn n(&self) -> nat {
        self.uint.n()
    }

    /// The signed (two's-complement) value.
    pub open spec fn ival(&self) -> int {
        ival(self.uint.digits@)
    }

    /// The raw magnitude value of the underlying bit pattern.
    pub open spec fn uval(&self) -> nat {
        self.uint.uval()
    }

    pub open spec fn min_spec(&self) -> int {
        min_ival(self.n())
    }

    pub open spec fn max_spec(&self) -> int {
        max_ival(self.n())
    }

    /// Reinterpret a magnitude's bits as a signed value.
    pub fn from_bits(uint: BUint) -> (r: BInt)
        requires
            uint.wf(),
        ensures
            r.wf(),
            r.uint == uint,
            r.n() == uint.n(),
            r.ival() == ival(uint.digits@),
    {
        BInt { uint }
    }

    /// The underlying magnitude bits.
    pub fn to_bits(self) -> (r: BUint)
        ensures
            r == self.uint,
    {
        self.uint
    }

    /// An independent copy.
    pub fn dup(&self) -> (r: BInt)
        requires
            self.wf(),
        ensures
            r.wf(),
            r.uint.digits@ == self.uint.digits@,
            r.ival() == self.ival(),
            r.n() == self.n(),
    {
        BInt { uint: self.uint.dup() }
    }

    /// Zero at the given width.
    pub fn zero(n: usize) -> (r: BInt)
        requires
            1 <= n <= crate::uint::MAX_DIGITS,
        ensures
            r.wf(),
            r.n() == n,
            r.ival() == 0,
    {
        let u = BUint::zero(n);
        proof {
            lemma_uval_zero(u.digits@);
            lemma_top_set_iff(u.digits@);
            vstd::arithmetic::power2::lemma_pow2_pos((32 * n - 1) as nat);
        }
        BInt { uint: u }
    }

    /// One at the given width (one digit of one, higher digits zero).
    pub fn one(n: usize) -> (r: BInt)
        requires
            1 <= n <= crate::uint::MAX_DIGITS,
        ensures
            r.wf(),
            r.n() == n,
            r.ival() == 1,
    {
        let mut digits: Vec<u32> = Vec::new();
        digits.push(1);
        proof {
            assert(uval(digits@.drop_first()) == 0);
            vstd::arithmetic::mul::lemma_mul_basics(crate::vals::base() as int);
            assert(uval(digits@) == 1);
        }
        let mut i: usize = 1;
        while i < n
            invariant
                1 <= i <= n,
                digits@.len() == i,
                uval(digits@) == 1,
                digits@[i - 1] < 0x8000_0000,
            decreases n - i,
        {
            proof {
                lemma_uval_push(digits@, 0);
                vstd::arithmetic::mul::lemma_mul_basics(pow2(32 * i as nat) as int);
            }
            digits.push(0);
            i += 1;
        }
        let u = BUint { digits };
        proof {
            assert(!top_set(u.digits@));
            lemma_base_value();
            vstd::arithmetic::power2::lemma_pow2_pos((32 * n - 1) as nat);
            lemma_top_set_iff(u.digits@);
        }
        BInt { uint: u }
    }

    /// Whether the sign bit is set, i.e. the value is negative.
    pub fn is_negative(&self) -> (r: bool)
        requires
            self.wf(),
        ensures
            r == top_set(self.uint.digits@),
            r <==> self.ival() < 0,
    {
        proof {
            lemma_top_set_iff(self.uint.digits@);
            lemma_uval_bound(self.uint.digits@);
        }
        self.uint.digits[self.uint.digits.len() - 1] >= 0x8000_0000
    }

    /// Whether the value is zero.
    pub fn is_zero(&self) -> (r: bool)
        requires
            self.wf(),
        ensures
            r <==> self.ival() == 0,
    {
        proof {
            lemma_top_set_iff(self.uint.digits@);
            lemma_uval_bound(self.uint.digits@);
            vstd::arithmetic::power2::lemma_pow2_pos((32 * self.n() - 1) as nat);
        }
        self.uint.is_zero()
    }

    /// The smallest value at the given width: sign bit alone.
    pub fn min_value(n: usize) -> (r: BInt)
        requires
            1 <= n <= crate::uint::MAX_DIGITS,
        ensures
            r.wf(),
            r.n() == n,
            r.ival() == min_ival(n as nat),
    {
        let mut digits: Vec<u32> = Vec::new();
        let mut i: usize = 0;
        while i < n - 1
            invariant
                i <= n - 1,
                digits@.len() == i,
                uval(digits@) == 0,
            decreases n - i,
        {
            proof {
                lemma_uval_push(digits@, 0);
            }
            digits.push(0);
            i += 1;
        }
        proof {
            lemma_uval_push(digits@, 0x8000_0000);
            lemma_base_value();
            lemma_pow2_adds(32 * (n - 1) as nat, 31);
            assert(0x8000_0000 * pow2(32 * (n - 1) as nat) == pow2(31) * pow2(32 * (n - 1) as nat))
                by (nonlinear_arith)
                requires
                    pow2(31) == 0x8000_0000,
            ;
        }
        digits.push(0x8000_0000);
        let u = BUint { digits };
        proof {
            assert(u.uval() == pow2((32 * n - 1) as nat));
            lemma_top_set_iff(u.digits@);
            lemma_pow2_adds((32 * n - 1) as nat, 1);
            assert(pow2(1) == 2) by { lemma2_to64(); }
        }
        BInt { uint: u }
    }

    /// The largest value at the given width: all bits but the sign bit.
    pub fn max_value(n: usize) -> (r: BInt)
        requires
            1 <= n <= crate::uint::MAX_DIGITS,
        ensures
            r.wf(),
            r.n() == n,
            r.ival() == max_ival(n as nat),
    {
        let mut digits: Vec<u32> = Vec::new();
        let mut i: usize = 0;
        proof {
            assert(pow2(0) == 1) by { lemma2_to64(); }
        }
        while i < n - 1
            invariant
                i <= n - 1,
                digits@.len() == i,
                uval(digits@) == pow2(32 * i as nat) - 1,
            decreases n - i,
        {
            proof {
                lemma_uval_push(digits@, 0xFFFF_FFFF);
                lemma_pow2_adds(32 * i as nat, 32);
                lemma_base_value();
                vstd::arithmetic::mul::lemma_mul_is_distributive_sub(
                    pow2(32 * i as nat) as int, crate::vals::base() as int, 1);
            }
            digits.push(0xFFFF_FFFF);
            i += 1;
        }
        proof {
            lemma_uval_push(digits@, 0x7FFF_FFFF);
            lemma_base_value();
            lemma_pow2_adds(32 * (n - 1) as nat, 31);
            assert(0x7FFF_FFFF * pow2(32 * (n - 1) as nat)
                == pow2(31) * pow2(32 * (n - 1) as nat) - pow2(32 * (n - 1) as nat))
                by (nonlinear_arith)
                requires
                    pow2(31) == 0x8000_0000,
            ;
        }
        digits.push(0x7FFF_FFFF);
        let u = BUint { digits };
        proof {
            assert(u.uval() == pow2((32 * n - 1) as nat) - 1);
            lemma_top_set_iff(u.digits@);
        }
        BInt { uint: u }
    }

    /// Overflow-reporting addition: the wrapped result and whether the true
    /// sum left the representable range.
    pub fn overflowing_add(&self, rhs: &BInt) -> (r: (BInt, bool))
        requires
            self.wf(),
            rhs.wf(),
            self.n() == rhs.n(),
        ensures
            r.0.wf(),
            r.0.n() == self.n(),
            !r.1 <==> min_ival(self.n()) <= self.ival() + rhs.ival() <= max_ival(self.n()),
            !r.1 ==> r.0.ival() == self.ival() + rhs.ival(),
    {
        let (u, c) = self.uint.add_carry(&rhs.uint, false);
        let r = BInt { uint: u };
        let ta = self.is_negative();
        let tb = rhs.is_negative();
        let tr = r.is_negative();
        let k: i64 = (if c { 1i64 } else { 0 }) + (if tr { 1i64 } else { 0 })
            - (if ta { 1i64 } else { 0 }) - (if tb { 1i64 } else { 0 });
        proof {
            let w = 32 * self.n();
            let s = self.ival() + rhs.ival();
            let d = s - r.ival();
            let p = pow2(w) as int;
            assert(d == (if c { p } else { 0 }) + (if tr { p } else { 0 })
                - (if ta { p } else { 0 }) - (if tb { p } else { 0 }));
            vstd::arithmetic::power2::lemma_pow2_pos(w);
            assert(k == 0 <==> d == 0);
            crate::vals::lemma_ival_range(r.uint.digits@);
            lemma_window(s, r.ival(), d, w);
        }
        (r, k != 0)
    }

    /// Overflow-reporting subtraction.
    pub fn overflowing_sub(&self, rhs: &BInt) -> (r: (BInt, bool))
        requires
            self.wf(),
            rhs.wf(),
            self.n() == rhs.n(),
        ensures
            r.0.wf(),
            r.0.n() == self.n(),
            !r.1 <==> min_ival(self.n()) <= self.ival() - rhs.ival() <= max_ival(self.n()),
            !r.1 ==> r.0.ival() == self.ival() - rhs.ival(),
    {
        let (u, bo) = self.uint.sub_borrow(&rhs.uint, false);
        let r = BInt { uint: u };
        let ta = self.is_negative();
        let tb = rhs.is_negative();
        let tr = r.is_negative();
        let k: i64 = (if tr { 1i64 } else { 0 }) - (if bo { 1i64 } else { 0 })
            - (if ta { 1i64 } else { 0 }) + (if tb { 1i64 } else { 0 });
        proof {
            let w = 32 * self.n();
            let s = self.ival() - rhs.ival();
            let d = s - r.ival();
            let p = pow2(w) as int;
            assert(d == (if tr { p } else { 0 }) - (if bo { p } else { 0 })
                - (if ta { p } else { 0 }) + (if tb { p } else { 0 }));
            vstd::arithmetic::power2::lemma_pow2_pos(w);
            assert(k == 0 <==> d == 0);
            crate::vals::lemma_ival_range(r.uint.digits@);
            lemma_window(s, r.ival(), d, w);
        }
        (r, k != 0)
    }

    /// Overflow-reporting addition of an unsigned magnitude.
    pub fn overflowing_add_unsigned(&self, rhs: &BUint) -> (r: (BInt, bool))
        requires
            self.wf(),
            rhs.wf(),
            self.n() == rhs.n(),
        ensures
            r.0.wf(),
            r.0.n() == self.n(),
            !r.1 <==> min_ival(self.n()) <= self.ival() + rhs.uval() <= max_ival(self.n()),
            !r.1 ==> r.0.ival() == self.ival() + rhs.uval(),
    {
        let (u, c) = self.uint.add_carry(rhs, false);
        let r = BInt { uint: u };
        let ta = self.is_negative();
        let tr = r.is_negative();
        let k: i64 = (if c { 1i64 } else { 0 }) + (if tr { 1i64 } else { 0 })
            - (if ta { 1i64 } else { 0 });
        proof {
            let w = 32 * self.n();
            let s = self.ival() + rhs.uval();
            let d = s - r.ival();
            let p = pow2(w) as int;
            assert(d == (if c { p } else { 0 }) + (if tr { p } else { 0 })
                - (if ta { p } else { 0 }));
            vstd::arithmetic::power2::lemma_pow2_pos(w);
            assert(k == 0 <==> d == 0);
            crate::vals::lemma_ival_range(r.uint.digits@);
            lemma_window(s, r.ival(), d, w);
        }
        (r, k != 0)
    }

    /// Overflow-reporting subtraction of an unsigned magnitude.
    pub fn overflowing_sub_unsigned(&self, rhs: &BUint) -> (r: (BInt, bool))
        requires
            self.wf(),
            rhs.wf(),
            self.n() == rhs.n(),
        ensures
            r.0.wf(),
            r.0.n() == self.n(),
            !r.1 <==> min_ival(self.n()) <= self.ival() - rhs.uval() <= max_ival(self.n()),
            !r.1 ==> r.0.ival() == self.ival() - rhs.uval(),
    {
        let (u, bo) = self.uint.sub_borrow(rhs, false);
        let r = BInt { uint: u };
        let ta = self.is_negative();
        let tr = r.is_negative();
        let k: i64 = (if tr { 1i64 } else { 0 }) - (if bo { 1i64 } else { 0 })
            - (if ta { 1i64 } else { 0 });
        proof {
            let w = 32 * self.n();
            let s = self.ival() - rhs.uval();
            let d = s - r.ival();
            let p = pow2(w) as int;
            assert(d == (if tr { p } else { 0 }) - (if bo { p } else { 0 })
                - (if ta { p } else { 0 }));
            vstd::arithmetic::power2::lemma_pow2_pos(w);
            assert(k == 0 <==> d == 0);
            crate::vals::lemma_ival_range(r.uint.digits@);
            lemma_window(s, r.ival(), d, w);
        }
        (r, k != 0)
    }

    /// Overflow-reporting negation: fails only on the minimum value.
    pub fn overflowing_neg(&self) -> (r: (BInt, bool))
        requires
            self.wf(),
        ensures
            r.0.wf(),
            r.0.n() == self.n(),
            !r.1 <==> self.ival() != min_ival(self.n()),
            !r.1 ==> r.0.ival() == -self.ival(),
    {
        let z = BInt::zero(self.uint.digits.len());
        let out = z.overflowing_sub(self);
        proof {
            crate::vals::lemma_ival_range(self.uint.digits@);
            vstd::arithmetic::power2::lemma_pow2_pos((32 * self.n() - 1) as nat);
        }
        out
    }

    /// The magnitude of the value as an unsigned integer of the same width.
    pub fn unsigned_abs(&self) -> (r: BUint)
        requires
            self.wf(),
        ensures
            r.wf(),
            r.n() == self.n(),
            r.uval() == (if self.ival() < 0 { -self.ival() } else { self.ival() }),
    {
        if self.is_negative() {
            let z = BUint::zero(self.uint.digits.len());
            let (u, bo) = z.sub_borrow(&self.uint, false);
            proof {
                crate::vals::lemma_ival_range(self.uint.digits@);
                lemma_uval_bound(self.uint.digits@);
                lemma_uval_zero(self.uint.digits@);
                vstd::arithmetic::power2::lemma_pow2_pos(32 * self.n());
            }
            u
        } else {
            self.uint.dup()
        }
    }
}

} // verus!
