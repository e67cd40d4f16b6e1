//! The float core: a bit-pattern value over a magnitude, read as an
//! IEEE-754-style layout of one sign bit, an exponent field and a mantissa
//! field. Every named constant is derived by structural bit manipulation of
//! the all-ones or all-zero pattern, never by numeric computation.

use vstd::prelude::*;
use vstd::arithmetic::power2::{pow2, lemma_pow2_adds, lemma_pow2_pos, lemma2_to64,
    lemma_pow2_strictly_increases};
use vstd::arithmetic::div_mod::{lemma_small_mod, lemma_mod_multiples_vanish,
    lemma_fundamental_div_mod_converse};
use crate::uint::BUint;
use crate::signed::BInt;
use crate::vals::{lemma_top_set_iff, lemma_uval_bound, lemma_ival_range};

verus! {

/// Dividing the all-ones-minus-a-little pattern by a power of two clears
/// that many low bits' worth of weight.
proof fn lemma_ones_shr(w: nat, k: nat, c: int)
    requires
        k <= w,
        1 <= c <= pow2(k),
    ensures
        (pow2(w) - c) / (pow2(k) as int) == pow2((w - k) as nat) - 1,
{
    lemma_pow2_pos(k);
    lemma_pow2_pos(w);
    lemma_pow2_pos((w - k) as nat);
    lemma_pow2_adds(k, (w - k) as nat);
    let pk = pow2(k) as int;
    let ph = pow2((w - k) as nat) as int;
    assert(pow2(w) - c == pk * (ph - 1) + (pk - c)) by (nonlinear_arith)
        requires
            pow2(w) == pk * ph,
    ;
    lemma_fundamental_div_mod_converse(pow2(w) - c, pk, ph - 1, pk - c);
}

/// Shifting the all-ones pattern left keeps all but the low bits.
proof fn lemma_ones_shl(w: nat, k: nat)
    requires
        k <= w,
    ensures
        ((pow2(w) - 1) * pow2(k)) % (pow2(w) as int) == pow2(w) - pow2(k),
{
    lemma_pow2_pos(k);
    lemma_pow2_pos(w);
    if k < w {
        lemma_pow2_strictly_increases(k, w);
    }
    let pk = pow2(k) as int;
    let pw = pow2(w) as int;
    assert((pw - 1) * pk == pw * (pk - 1) + (pw - pk)) by (nonlinear_arith);
    lemma_mod_multiples_vanish(pk - 1, pw - pk, pw);
    lemma_small_mod((pw - pk) as nat, pw as nat);
}

/// A value below the width is unchanged by the wrap.
proof fn lemma_small_shl(w: nat, x: int, k: nat)
    requires
        0 <= x,
        x * pow2(k) < pow2(w),
    ensures
        (x * pow2(k)) % (pow2(w) as int) == x * pow2(k),
{
    lemma_pow2_pos(k);
    assert(x * pow2(k) >= 0) by (nonlinear_arith)
        requires
            x >= 0,
            pow2(k) > 0,
    ;
    lemma_small_mod((x * pow2(k)) as nat, pow2(w));
}

/// A floating-point bit pattern: a magnitude of `n` digits holding one sign
/// bit, an exponent field, and a mantissa field of `mb` bits.
pub struct Float {
    pub uint: BUint,
    pub mb: u32,
}

impl Float {
    /// The layout is well formed when the mantissa leaves at least one
    /// exponent bit and the sign bit.
    pub open spec fn layout_ok(n: nat, mb: u32) -> bool {
        1 <= n <= crate::uint::MAX_DIGITS && 1 <= mb && mb + 2 <= 32 * n
    }

    pub open spec fn wf(&self) -> bool {
        Self::layout_ok(self.uint.n(), self.mb) && self.uint.wf()
    }

    /// Exponent field width.
    pub open spec fn eb(n: nat, mb: u32) -> nat {
        (32 * n - mb - 1) as nat
    }

    /// The raw bits.
    pub fn to_bits(self) -> (r: BUint)
        ensures
            r == self.uint,
    {
        self.uint
    }

    /// Positive zero: all bits clear.
    pub fn zero(n: usize, mb: u32) -> (r: Float)
        requires
            Self::layout_ok(n as nat, mb),
        ensures
            r.wf(),
            r.uint.n() == n,
            r.mb == mb,
            r.uint.uval() == 0,
    {
        Float { uint: BUint::zero(n), mb }
    }

    /// Negative zero: only the sign bit.
    pub fn neg_zero(n: usize, mb: u32) -> (r: Float)
        requires
            Self::layout_ok(n as nat, mb),
        ensures
            r.wf(),
            r.uint.n() == n,
            r.mb == mb,
            r.uint.uval() == pow2((32 * n - 1) as nat),
    {
        let one = BUint::from_digit(n, 1);
        let w: u32 = (n as u32) * 32;
        let u = one.wrapping_shl(w - 1);
        proof {
            lemma_pow2_adds((32 * n - 1) as nat, 1);
            assert(pow2(1) == 2) by { lemma2_to64(); }
            lemma_pow2_pos((32 * n - 1) as nat);
            lemma_small_shl(32 * n as nat, 1, (32 * n - 1) as nat);
            assert(1 * pow2((32 * n - 1) as nat) == pow2((32 * n - 1) as nat))
                by (nonlinear_arith);
        }
        Float { uint: u, mb }
    }

    /// Positive infinity: exponent field all ones, mantissa zero.
    pub fn infinity(n: usize, mb: u32) -> (r: Float)
        requires
            Self::layout_ok(n as nat, mb),
        ensures
            r.wf(),
            r.uint.n() == n,
            r.mb == mb,
            r.uint.uval() == (pow2(Self::eb(n as nat, mb)) - 1) * pow2(mb as nat),
    {
        let s1 = BUint::max(n).wrapping_shl(1);
        proof {
            lemma_ones_shl(32 * n as nat, 1);
            assert(pow2(1) == 2) by { lemma2_to64(); }
            assert(pow2((mb + 1) as nat) >= 2) by {
                lemma_pow2_strictly_increases(0, (mb + 1) as nat);
                assert(pow2(0) == 1) by { lemma2_to64(); }
            }
            lemma_ones_shr(32 * n as nat, (mb + 1) as nat, 2);
        }
        let s2 = s1.wrapping_shr(mb + 1);
        let s3 = s2.wrapping_shl(mb);
        proof {
            let ebn = Self::eb(n as nat, mb);
            lemma_pow2_adds(ebn, mb as nat);
            lemma_pow2_pos(ebn);
            lemma_pow2_pos(mb as nat);
            lemma_pow2_adds((32 * n - 1) as nat, 1);
            assert((pow2(ebn) - 1) * pow2(mb as nat) < pow2(32 * n as nat)) by (nonlinear_arith)
                requires
                    pow2(ebn) * pow2(mb as nat) == pow2((32 * n - 1) as nat),
                    pow2(32 * n as nat) == 2 * pow2((32 * n - 1) as nat),
                    pow2(mb as nat) > 0,
                    pow2(ebn) > 0,
            ;
            lemma_small_shl(32 * n as nat, pow2(ebn) - 1, mb as nat);
        }
        Float { uint: s3, mb }
    }

    /// Negative infinity: sign bit, exponent all ones, mantissa zero.
    pub fn neg_infinity(n: usize, mb: u32) -> (r: Float)
        requires
            Self::layout_ok(n as nat, mb),
        ensures
            r.wf(),
            r.uint.n() == n,
            r.mb == mb,
            r.uint.uval() == pow2(32 * n as nat) - pow2(mb as nat),
    {
        let s1 = BUint::max(n).wrapping_shr(mb);
        proof {
            lemma_pow2_pos(mb as nat);
            lemma_ones_shr(32 * n as nat, mb as nat, 1);
            lemma_ones_shl((32 * (n as nat) - mb) as nat, 0);
            // shifting the truncated ones back up leaves the high field
            lemma_ones_shl_general(32 * n as nat, mb as nat);
        }
        let s2 = s1.wrapping_shl(mb);
        Float { uint: s2, mb }
    }

    /// Quiet NaN: exponent all ones and the top mantissa bit.
    pub fn nan(n: usize, mb: u32) -> (r: Float)
        requires
            Self::layout_ok(n as nat, mb),
        ensures
            r.wf(),
            r.uint.n() == n,
            r.mb == mb,
            r.uint.uval() == pow2((32 * n - 1) as nat) - pow2((mb - 1) as nat),
    {
        let s1 = BUint::max(n).wrapping_shl(1);
        proof {
            lemma_ones_shl(32 * n as nat, 1);
            assert(pow2(1) == 2) by { lemma2_to64(); }
            assert(pow2(mb as nat) >= 2) by {
                lemma_pow2_strictly_increases(0, mb as nat);
                assert(pow2(0) == 1) by { lemma2_to64(); }
            }
            lemma_ones_shr(32 * n as nat, mb as nat, 2);
        }
        let s2 = s1.wrapping_shr(mb);
        let s3 = s2.wrapping_shl(mb - 1);
        proof {
            let hk = (32 * (n as nat) - mb) as nat;
            lemma_pow2_adds(hk, (mb - 1) as nat);
            lemma_pow2_pos(hk);
            lemma_pow2_pos((mb - 1) as nat);
            lemma_pow2_adds((32 * n - 1) as nat, 1);
            assert((pow2(hk) - 1) * pow2((mb - 1) as nat) < pow2(32 * n as nat))
                by (nonlinear_arith)
                requires
                    pow2(hk) * pow2((mb - 1) as nat) == pow2((32 * n - 1) as nat),
                    pow2(32 * n as nat) == 2 * pow2((32 * n - 1) as nat),
                    pow2((mb - 1) as nat) > 0,
                    pow2(hk) > 0,
            ;
            lemma_small_shl(32 * n as nat, pow2(hk) - 1, (mb - 1) as nat);
            assert((pow2(hk) - 1) * pow2((mb - 1) as nat)
                == pow2((32 * n - 1) as nat) - pow2((mb - 1) as nat)) by (nonlinear_arith)
                requires
                    pow2(hk) * pow2((mb - 1) as nat) == pow2((32 * n - 1) as nat),
            ;
        }
        Float { uint: s3, mb }
    }
}

impl Float {
    /// The sign-bit pattern alone.
    fn half(n: usize) -> (r: BUint)
        requires
            1 <= n <= crate::uint::MAX_DIGITS,
        ensures
            r.wf(),
            r.n() == n,
            r.uval() == pow2((32 * n - 1) as nat),
    {
        let one = BUint::from_digit(n, 1);
        let w: u32 = (n as u32) * 32;
        let u = one.wrapping_shl(w - 1);
        proof {
            lemma_pow2_adds((32 * n - 1) as nat, 1);
            assert(pow2(1) == 2) by { lemma2_to64(); }
            lemma_pow2_pos((32 * n - 1) as nat);
            lemma_small_shl(32 * n as nat, 1, (32 * n - 1) as nat);
            assert(1 * pow2((32 * n - 1) as nat) == pow2((32 * n - 1) as nat))
                by (nonlinear_arith);
        }
        u
    }

    /// Set the sign bit of a pattern that does not have it.
    fn with_sign(n: usize, u: BUint) -> (r: BUint)
        requires
            1 <= n <= crate::uint::MAX_DIGITS,
            u.wf(),
            u.n() == n,
            u.uval() < pow2((32 * n - 1) as nat),
        ensures
            r.wf(),
            r.n() == n,
            r.uval() == u.uval() + pow2((32 * n - 1) as nat),
    {
        let h = Self::half(n);
        let (out, _c) = u.add_carry(&h, false);
        proof {
            lemma_pow2_adds((32 * n - 1) as nat, 1);
            assert(pow2(1) == 2) by { lemma2_to64(); }
            lemma_uval_bound(out.digits@);
        }
        out
    }

    /// Quiet NaN with the sign bit set.
    pub fn neg_nan(n: usize, mb: u32) -> (r: Float)
        requires
            Self::layout_ok(n as nat, mb),
        ensures
            r.wf(),
            r.uint.n() == n,
            r.mb == mb,
            r.uint.uval() == pow2(32 * n as nat) - pow2((mb - 1) as nat),
    {
        let v = Self::nan(n, mb);
        proof {
            lemma_pow2_pos((mb - 1) as nat);
            lemma_pow2_adds((32 * n - 1) as nat, 1);
            assert(pow2(1) == 2) by { lemma2_to64(); }
        }
        let u = Self::with_sign(n, v.uint);
        Float { uint: u, mb }
    }

    /// The most negative finite value: sign bit, largest finite exponent
    /// field, mantissa all ones.
    pub fn min(n: usize, mb: u32) -> (r: Float)
        requires
            Self::layout_ok(n as nat, mb),
        ensures
            r.wf(),
            r.uint.n() == n,
            r.mb == mb,
            r.uint.uval() == pow2(32 * n as nat) - pow2(mb as nat) - 1,
    {
        let w: u32 = (n as u32) * 32;
        let ebits: u32 = w - mb - 1;
        let e0 = BUint::max(n).wrapping_shr(mb + 1);
        proof {
            assert(pow2((mb + 1) as nat) >= 1) by { lemma_pow2_pos((mb + 1) as nat); }
            lemma_ones_shr(32 * n as nat, (mb + 1) as nat, 1);
            lemma_ones_shl_general(32 * n as nat, (mb + 1) as nat);
        }
        let e = e0.wrapping_shl(mb + 1);
        let m = BUint::max(n).wrapping_shr(ebits + 1);
        proof {
            assert(pow2((ebits + 1) as nat) >= 1) by { lemma_pow2_pos((ebits + 1) as nat); }
            lemma_ones_shr(32 * n as nat, (ebits + 1) as nat, 1);
            // the exponent part and the mantissa part occupy disjoint bits
            lemma_pow2_adds(mb as nat, 1);
            assert(pow2(1) == 2) by { lemma2_to64(); }
            lemma_pow2_pos(mb as nat);
            lemma_uval_bound(e.digits@);
        }
        let (u, _c) = e.add_carry(&m, false);
        proof {
            lemma_uval_bound(u.digits@);
            lemma_pow2_pos(32 * n as nat);
        }
        Float { uint: u, mb }
    }

    /// The largest finite value: the most negative one without its sign.
    pub fn max(n: usize, mb: u32) -> (r: Float)
        requires
            Self::layout_ok(n as nat, mb),
        ensures
            r.wf(),
            r.uint.n() == n,
            r.mb == mb,
            r.uint.uval() == pow2((32 * n - 1) as nat) - pow2(mb as nat) - 1,
    {
        let v = Self::min(n, mb);
        let h = Self::half(n);
        let (u, _bo) = v.uint.sub_borrow(&h, false);
        proof {
            lemma_pow2_adds((32 * n - 1) as nat, 1);
            assert(pow2(1) == 2) by { lemma2_to64(); }
            assert(pow2(mb as nat) + 1 <= pow2((32 * n - 1) as nat)) by {
                lemma_pow2_strictly_increases(mb as nat, (32 * n - 1) as nat);
            }
            lemma_uval_bound(u.digits@);
            lemma_pow2_pos(32 * n as nat);
        }
        Float { uint: u, mb }
    }

    /// The smallest positive normal value: exponent field one, mantissa zero.
    pub fn min_positive(n: usize, mb: u32) -> (r: Float)
        requires
            Self::layout_ok(n as nat, mb),
        ensures
            r.wf(),
            r.uint.n() == n,
            r.mb == mb,
            r.uint.uval() == pow2(mb as nat),
    {
        let one = BUint::from_digit(n, 1);
        let u = one.wrapping_shl(mb);
        proof {
            lemma_pow2_strictly_increases(mb as nat, 32 * n as nat);
            lemma_pow2_pos(mb as nat);
            lemma_small_shl(32 * n as nat, 1, mb as nat);
            assert(1 * pow2(mb as nat) == pow2(mb as nat)) by (nonlinear_arith);
        }
        Float { uint: u, mb }
    }

    /// The negation of the smallest positive normal value.
    pub fn max_negative(n: usize, mb: u32) -> (r: Float)
        requires
            Self::layout_ok(n as nat, mb),
        ensures
            r.wf(),
            r.uint.n() == n,
            r.mb == mb,
            r.uint.uval() == pow2((32 * n - 1) as nat) + pow2(mb as nat),
    {
        let v = Self::min_positive(n, mb);
        proof {
            lemma_pow2_strictly_increases(mb as nat, (32 * n - 1) as nat);
        }
        let u = Self::with_sign(n, v.uint);
        Float { uint: u, mb }
    }

    /// One: exponent field holding the bias, mantissa zero.
    pub fn one(n: usize, mb: u32) -> (r: Float)
        requires
            Self::layout_ok(n as nat, mb),
        ensures
            r.wf(),
            r.uint.n() == n,
            r.mb == mb,
            r.uint.uval() == (pow2((Self::eb(n as nat, mb) - 1) as nat) - 1) * pow2(mb as nat),
    {
        let s1 = BUint::max(n).wrapping_shl(2);
        proof {
            lemma_ones_shl(32 * n as nat, 2);
            assert(pow2(2) == 4) by { lemma2_to64(); }
            assert(pow2((mb + 2) as nat) >= 4) by {
                lemma_pow2_strictly_increases(1, (mb + 2) as nat);
                assert(pow2(1) == 2) by { lemma2_to64(); }
                lemma_pow2_adds((mb + 1) as nat, 1);
                lemma_pow2_pos((mb + 1) as nat);
            }
            lemma_ones_shr(32 * n as nat, (mb + 2) as nat, 4);
        }
        let s2 = s1.wrapping_shr(mb + 2);
        let s3 = s2.wrapping_shl(mb);
        proof {
            let k = (32 * (n as nat) - mb - 2) as nat;
            lemma_pow2_adds(k, mb as nat);
            lemma_pow2_pos(k);
            lemma_pow2_pos(mb as nat);
            lemma_pow2_strictly_increases((32 * n - 2) as nat, 32 * n as nat);
            assert((pow2(k) - 1) * pow2(mb as nat) < pow2(32 * n as nat)) by (nonlinear_arith)
                requires
                    pow2(k) * pow2(mb as nat) == pow2((32 * n - 2) as nat),
                    pow2((32 * n - 2) as nat) < pow2(32 * n as nat),
                    pow2(mb as nat) > 0,
                    pow2(k) > 0,
            ;
            lemma_small_shl(32 * n as nat, pow2(k) - 1, mb as nat);
        }
        Float { uint: s3, mb }
    }

    /// Minus one: one with the sign bit.
    pub fn neg_one(n: usize, mb: u32) -> (r: Float)
        requires
            Self::layout_ok(n as nat, mb),
        ensures
            r.wf(),
            r.uint.n() == n,
            r.mb == mb,
            r.uint.uval() == pow2((32 * n - 1) as nat)
                + (pow2((Self::eb(n as nat, mb) - 1) as nat) - 1) * pow2(mb as nat),
    {
        let v = Self::one(n, mb);
        proof {
            let k = (32 * (n as nat) - mb - 2) as nat;
            lemma_pow2_adds(k, mb as nat);
            lemma_pow2_pos(k);
            lemma_pow2_pos(mb as nat);
            lemma_pow2_strictly_increases((32 * n - 2) as nat, (32 * n - 1) as nat);
            assert((pow2(k) - 1) * pow2(mb as nat) < pow2((32 * n - 1) as nat))
                by (nonlinear_arith)
                requires
                    pow2(k) * pow2(mb as nat) == pow2((32 * n - 2) as nat),
                    pow2((32 * n - 2) as nat) < pow2((32 * n - 1) as nat),
                    pow2(mb as nat) > 0,
                    pow2(k) > 0,
            ;
        }
        let u = Self::with_sign(n, v.uint);
        Float { uint: u, mb }
    }

    /// The largest subnormal value: exponent zero, mantissa all ones.
    pub fn max_subnormal(n: usize, mb: u32) -> (r: Float)
        requires
            Self::layout_ok(n as nat, mb),
        ensures
            r.wf(),
            r.uint.n() == n,
            r.mb == mb,
            r.uint.uval() == pow2(mb as nat) - 1,
    {
        let w: u32 = (n as u32) * 32;
        let ebits: u32 = w - mb - 1;
        let u = BUint::max(n).wrapping_shr(ebits + 1);
        proof {
            lemma_pow2_pos((ebits + 1) as nat);
            lemma_ones_shr(32 * n as nat, (ebits + 1) as nat, 1);
        }
        Float { uint: u, mb }
    }

    /// The negation of the largest subnormal value.
    pub fn min_subnormal(n: usize, mb: u32) -> (r: Float)
        requires
            Self::layout_ok(n as nat, mb),
        ensures
            r.wf(),
            r.uint.n() == n,
            r.mb == mb,
            r.uint.uval() == pow2((32 * n - 1) as nat) + pow2(mb as nat) - 1,
    {
        let v = Self::max_subnormal(n, mb);
        proof {
            lemma_pow2_strictly_increases(mb as nat, (32 * n - 1) as nat);
        }
        let u = Self::with_sign(n, v.uint);
        Float { uint: u, mb }
    }

    /// The smallest positive subnormal value: the lowest mantissa bit.
    pub fn min_positive_subnormal(n: usize, mb: u32) -> (r: Float)
        requires
            Self::layout_ok(n as nat, mb),
        ensures
            r.wf(),
            r.uint.n() == n,
            r.mb == mb,
            r.uint.uval() == 1,
    {
        Float { uint: BUint::from_digit(n, 1), mb }
    }

    /// The negation of the smallest positive subnormal value.
    pub fn max_negative_subnormal(n: usize, mb: u32) -> (r: Float)
        requires
            Self::layout_ok(n as nat, mb),
        ensures
            r.wf(),
            r.uint.n() == n,
            r.mb == mb,
            r.uint.uval() == pow2((32 * n - 1) as nat) + 1,
    {
        let v = BUint::from_digit(n, 1);
        proof {
            lemma_pow2_strictly_increases(0, (32 * n - 1) as nat);
            assert(pow2(0) == 1) by { lemma2_to64(); }
        }
        let u = Self::with_sign(n, v);
        Float { uint: u, mb }
    }

    /// The exponent bias: the largest signed pattern shifted past the
    /// mantissa and the implicit bit.
    pub fn exp_bias(n: usize, mb: u32) -> (r: BInt)
        requires
            Self::layout_ok(n as nat, mb),
        ensures
            r.wf(),
            r.n() == n,
            r.ival() == pow2((Self::eb(n as nat, mb) - 1) as nat) - 1,
    {
        let b = BInt::max_value(n).to_bits();
        proof {
            lemma_top_set_iff(b.digits@);
            lemma_uval_bound(b.digits@);
            lemma_pow2_pos((32 * n - 1) as nat);
            assert(b.uval() == pow2((32 * n - 1) as nat) - 1);
            lemma_pow2_pos((mb + 1) as nat);
            lemma_ones_shr((32 * (n as nat) - 1) as nat, (mb + 1) as nat, 1);
            // the shifted pattern is the same whether the width is counted
            // with or without the sign bit
            lemma_pow2_adds((32 * n - 1) as nat, 1);
            assert(pow2(1) == 2) by { lemma2_to64(); }
            assert(pow2((32 * n - 1) as nat) - 1 < pow2(32 * n as nat));
        }
        let u = b.wrapping_shr(mb + 1);
        proof {
            let k = (32 * (n as nat) - 1 - mb - 1) as nat;
            crate::vals::lemma_top_set_iff(u.digits@);
            lemma_pow2_pos(k);
            if k < 32 * n - 1 {
                lemma_pow2_strictly_increases(k, (32 * n - 1) as nat);
            }
        }
        BInt::from_bits(u)
    }

    /// The smallest normalized exponent: two minus the bias.
    pub fn min_exp(n: usize, mb: u32) -> (r: BInt)
        requires
            Self::layout_ok(n as nat, mb),
        ensures
            r.wf(),
            r.n() == n,
            r.ival() == 2 - (pow2((Self::eb(n as nat, mb) - 1) as nat) - 1),
    {
        let bias = Self::exp_bias(n, mb);
        proof {
            lemma_ival_range(bias.uint.digits@);
            lemma_pow2_pos((32 * n - 1) as nat);
            lemma_pow2_pos((Self::eb(n as nat, mb) - 1) as nat);
        }
        let nb = match bias.checked_neg() {
            Some(v) => v,
            None => {
                proof {
                    assert(false);
                }
                bias
            },
        };
        let one = BInt::one(n);
        let two = match one.checked_add(&one) {
            Some(v) => v,
            None => {
                proof {
                    lemma_pow2_strictly_increases(2, (32 * n - 1) as nat);
                    assert(pow2(2) == 4) by { lemma2_to64(); }
                    assert(false);
                }
                one
            },
        };
        match nb.checked_add(&two) {
            Some(v) => v,
            None => {
                proof {
                    lemma_pow2_strictly_increases(2, (32 * n - 1) as nat);
                    assert(pow2(2) == 4) by { lemma2_to64(); }
                    assert(false);
                }
                nb
            },
        }
    }

    /// The largest normalized exponent: the bias plus one.
    pub fn max_exp(n: usize, mb: u32) -> (r: BInt)
        requires
            Self::layout_ok(n as nat, mb),
        ensures
            r.wf(),
            r.n() == n,
            r.ival() == pow2((Self::eb(n as nat, mb) - 1) as nat),
    {
        let bias = Self::exp_bias(n, mb);
        proof {
            lemma_ival_range(bias.uint.digits@);
            lemma_pow2_pos((Self::eb(n as nat, mb) - 1) as nat);
            if Self::eb(n as nat, mb) - 1 < 32 * n - 1 {
                lemma_pow2_strictly_increases((Self::eb(n as nat, mb) - 1) as nat,
                    (32 * n - 1) as nat);
            }
        }
        let one = BInt::one(n);
        match bias.checked_add(&one) {
            Some(v) => v,
            None => {
                proof {
                    assert(false);
                }
                bias
            },
        }
    }

    /// Twice the bias: the largest biased exponent of a finite value.
    pub fn max_unbiased_exp(n: usize, mb: u32) -> (r: BUint)
        requires
            Self::layout_ok(n as nat, mb),
        ensures
            r.wf(),
            r.n() == n,
            r.uval() == pow2(Self::eb(n as nat, mb)) - 2,
    {
        let bias = Self::exp_bias(n, mb);
        proof {
            lemma_top_set_iff(bias.uint.digits@);
            lemma_uval_bound(bias.uint.digits@);
            lemma_pow2_pos((32 * n - 1) as nat);
            let e1 = (Self::eb(n as nat, mb) - 1) as nat;
            lemma_pow2_pos(e1);
            lemma_pow2_adds(e1, 1);
            assert(pow2(1) == 2) by { lemma2_to64(); }
            assert(bias.uint.uval() == pow2(e1) - 1);
            lemma_pow2_strictly_increases(Self::eb(n as nat, mb), 32 * n as nat);
        }
        let b = bias.to_bits();
        let (u, _c) = b.add_carry(&b, false);
        proof {
            lemma_uval_bound(u.digits@);
            lemma_pow2_pos(32 * n as nat);
        }
        u
    }

    /// The base of the representation.
    pub fn radix() -> (r: u32)
        ensures
            r == 2,
    {
        2
    }

    /// Mantissa digits, counting the implicit leading bit.
    pub fn mantissa_digits(n: usize, mb: u32) -> (r: u32)
        requires
            Self::layout_ok(n as nat, mb),
        ensures
            r == mb + 1,
    {
        mb + 1
    }

    /// The total bit width.
    pub fn bits(n: usize, mb: u32) -> (r: u32)
        requires
            Self::layout_ok(n as nat, mb),
        ensures
            r == 32 * n,
    {
        (n as u32) * 32
    }

    /// The exponent field width.
    pub fn exponent_bits(n: usize, mb: u32) -> (r: u32)
        requires
            Self::layout_ok(n as nat, mb),
        ensures
            r == Self::eb(n as nat, mb),
    {
        (n as u32) * 32 - mb - 1
    }

    /// Decimal digits that survive a round trip: the base-ten logarithm of
    /// the mantissa's reach.
    pub fn digits10(n: usize, mb: u32) -> (r: u32)
        requires
            Self::layout_ok(n as nat, mb),
            2 * n <= crate::uint::MAX_DIGITS,
        ensures
            vstd::arithmetic::power::pow(10, r as nat) <= pow2(mb as nat),
            pow2(mb as nat) < vstd::arithmetic::power::pow(10, (r + 1) as nat),
    {
        let mp = Self::min_positive(n, mb);
        let v = BInt::from_bits(mp.uint);
        proof {
            lemma_top_set_iff(v.uint.digits@);
            lemma_pow2_pos(mb as nat);
            lemma_pow2_strictly_increases(mb as nat, (32 * n - 1) as nat);
        }
        match v.checked_log10() {
            Some(k) => k,
            None => {
                proof {
                    assert(false);
                }
                0
            },
        }
    }
}

/// The derived non-negative constants stand in the floating-point order.
/// Non-negative patterns order as their bit values, so the chain reads over
/// the constants' magnitudes: zero, then the smallest positive subnormal,
/// up through the largest subnormal, the smallest positive normal value,
/// the largest finite value, and infinity.
pub proof fn lemma_constants_ordered(n: nat, mb: u32)
    requires
        Float::layout_ok(n, mb),
        Float::eb(n, mb) >= 2,
    ensures
        0 < 1 <= pow2(mb as nat) - 1,
        pow2(mb as nat) - 1 < pow2(mb as nat),
        pow2(mb as nat) < pow2((32 * n - 1) as nat) - pow2(mb as nat) - 1,
        pow2((32 * n - 1) as nat) - pow2(mb as nat) - 1
            < (pow2(Float::eb(n, mb)) - 1) * pow2(mb as nat),
{
    let w = 32 * n;
    let ebn = Float::eb(n, mb);
    lemma_pow2_pos(mb as nat);
    lemma_pow2_pos(ebn);
    assert(pow2(0) == 1 && pow2(1) == 2) by { lemma2_to64(); }
    lemma_pow2_strictly_increases(0, mb as nat);
    lemma_pow2_adds((mb + 1) as nat, 1);
    lemma_pow2_adds(mb as nat, 1);
    lemma_pow2_adds((w - 2) as nat, 1);
    lemma_pow2_pos((w - 2) as nat);
    if mb + 1 < w - 2 {
        lemma_pow2_strictly_increases((mb + 1) as nat, (w - 2) as nat);
    }
    lemma_pow2_strictly_increases(mb as nat, (w - 1) as nat);
    lemma_pow2_adds(ebn, mb as nat);
    // the infinity pattern is the half pattern with the mantissa cleared
    assert((pow2(ebn) - 1) * pow2(mb as nat) == pow2((w - 1) as nat) - pow2(mb as nat))
        by (nonlinear_arith)
        requires
            pow2(ebn) * pow2(mb as nat) == pow2((w - 1) as nat),
    ;
}

/// Shifting the ones pattern down by `k` and back up leaves the value with
/// its low `k` bits cleared.
proof fn lemma_ones_shl_general(w: nat, k: nat)
    requires
        k <= w,
    ensures
        ((pow2((w - k) as nat) - 1) * pow2(k)) % (pow2(w) as int) == pow2(w) - pow2(k),
{
    lemma_pow2_pos(k);
    lemma_pow2_pos(w);
    lemma_pow2_pos((w - k) as nat);
    lemma_pow2_adds((w - k) as nat, k);
    assert((pow2((w - k) as nat) - 1) * pow2(k) == pow2(w) - pow2(k)) by (nonlinear_arith)
        requires
            pow2((w - k) as nat) * pow2(k) == pow2(w),
    ;
    if k < w {
        lemma_pow2_strictly_increases(k, w);
    }
    lemma_small_mod((pow2(w) - pow2(k)) as nat, pow2(w));
}

} // verus!
