//! The ordering layer: sign-aware equality and total ordering, done as a
//! fast comparison of sign-extended top digits with an unsigned digit-wise
//! tie-break, proved equivalent to comparing the signed values themselves.
//! `BintTest` is the test-oriented twin of the signed core that carries
//! this comparison logic.

use core::cmp::Ordering;
use vstd::prelude::*;
use vstd::arithmetic::power2::{pow2, lemma_pow2_adds};
use crate::uint::BUint;
use crate::vals::{uval, ival, top_set, lemma_uval_split, lemma_uval_bound, lemma_top_set_iff,
    lemma_base_value};

verus! {

/// The sign-extended value of the most significant digit.
pub open spec fn sdigit(s: Seq<u32>) -> int {
    s[s.len() - 1] - if top_set(s) {
        0x1_0000_0000int
    } else {
        0
    }
}

/// The signed value splits into a low part and the weighted signed top digit.
pub proof fn lemma_ival_decompose(s: Seq<u32>)
    requires
        s.len() > 0,
    ensures
        ival(s) == uval(s.take(s.len() - 1)) + sdigit(s) * pow2(32 * (s.len() - 1) as nat),
{
    let n = s.len() as int;
    let p = pow2(32 * (n - 1) as nat) as int;
    lemma_uval_split(s, n - 1);
    let hi = s.skip(n - 1);
    assert(hi.len() == 1);
    assert(hi[0] == s[n - 1]);
    assert(uval(hi.drop_first()) == 0);
    assert(crate::vals::base() * uval(hi.drop_first()) == 0) by (nonlinear_arith)
        requires
            uval(hi.drop_first()) == 0,
    ;
    assert(uval(hi) == s[n - 1]);
    lemma_pow2_adds(32 * (n - 1) as nat, 32);
    lemma_base_value();
    let t: int = if top_set(s) { 0x1_0000_0000 } else { 0 };
    assert((s[n - 1] - t) * p == s[n - 1] * p - t * p) by (nonlinear_arith);
    assert(t * p == if top_set(s) { pow2(32 * s.len()) as int } else { 0 }) by (nonlinear_arith)
        requires
            t == if top_set(s) { 0x1_0000_0000int } else { 0 },
            pow2(32 * s.len()) == p * 0x1_0000_0000,
    ;
    assert(p * s[n - 1] == s[n - 1] * p) by (nonlinear_arith);
}

/// A smaller signed top digit means a smaller signed value.
pub proof fn lemma_sdigit_lt(a: Seq<u32>, b: Seq<u32>)
    requires
        a.len() == b.len(),
        a.len() > 0,
        sdigit(a) < sdigit(b),
    ensures
        ival(a) < ival(b),
{
    let n = a.len() as int;
    let p = pow2(32 * (n - 1) as nat) as int;
    lemma_ival_decompose(a);
    lemma_ival_decompose(b);
    lemma_uval_bound(a.take(n - 1));
    lemma_uval_bound(b.take(n - 1));
    assert(ival(a) < ival(b)) by (nonlinear_arith)
        requires
            ival(a) == uval(a.take(n - 1)) + sdigit(a) * p,
            ival(b) == uval(b.take(n - 1)) + sdigit(b) * p,
            sdigit(a) < sdigit(b),
            uval(a.take(n - 1)) < p,
            uval(b.take(n - 1)) >= 0,
            p > 0,
    ;
}

/// The test-oriented twin of the signed core: the same two's-complement
/// reading of a magnitude, carrying the comparison operations.
#[derive(Debug)]
pub struct BintTest {
    pub uint: BUint,
}

impl BintTest {
    pub open spec fn wf(&self) -> bool {
        self.uint.wf()
    }

    pub open spec fn n(&self) -> nat {
        self.uint.n()
    }

    /// The signed value.
    pub open spec fn ival(&self) -> int {
        ival(self.uint.digits@)
    }

    /// Reinterpret a magnitude's bits.
    pub fn from_bits(uint: BUint) -> (r: BintTest)
        requires
            uint.wf(),
        ensures
            r.wf(),
            r.uint == uint,
    {
        BintTest { uint }
    }

    /// The most significant digit read as a signed machine word.
    pub fn signed_digit(&self) -> (r: i64)
        requires
            self.wf(),
        ensures
            r == sdigit(self.uint.digits@),
    {
        let d = self.uint.digits[self.uint.digits.len() - 1];
        if d >= 0x8000_0000 {
            d as i64 - 0x1_0000_0000
        } else {
            d as i64
        }
    }

    /// Equality of the signed values: equal signed top digits, then an
    /// unsigned comparison of the full magnitudes.
    pub fn eq(&self, other: &Self) -> (r: bool)
        requires
            self.wf(),
            other.wf(),
            self.n() == other.n(),
        ensures
            r <==> self.ival() == other.ival(),
    {
        proof {
            if sdigit(self.uint.digits@) < sdigit(other.uint.digits@) {
                lemma_sdigit_lt(self.uint.digits@, other.uint.digits@);
            }
            if sdigit(other.uint.digits@) < sdigit(self.uint.digits@) {
                lemma_sdigit_lt(other.uint.digits@, self.uint.digits@);
            }
            lemma_top_set_iff(self.uint.digits@);
            lemma_top_set_iff(other.uint.digits@);
            lemma_uval_bound(self.uint.digits@);
            lemma_uval_bound(other.uint.digits@);
        }
        self.signed_digit() == other.signed_digit()
            && matches!(self.uint.cmp_mags(&other.uint), Ordering::Equal)
    }

    /// Total ordering of the signed values: compare signed top digits, and
    /// on a tie fall back to the unsigned digit-by-digit comparison.
    pub fn cmp(&self, other: &Self) -> (r: Ordering)
        requires
            self.wf(),
            other.wf(),
            self.n() == other.n(),
        ensures
            r == Ordering::Less <==> self.ival() < other.ival(),
            r == Ordering::Equal <==> self.ival() == other.ival(),
            r == Ordering::Greater <==> self.ival() > other.ival(),
    {
        let sa = self.signed_digit();
        let sb = other.signed_digit();
        if sa == sb {
            proof {
                let a = self.uint.digits@;
                let b = other.uint.digits@;
                lemma_top_set_iff(a);
                lemma_top_set_iff(b);
                lemma_uval_bound(a);
                lemma_uval_bound(b);
                // equal signed top digits mean equal sign bits, so the signed
                // comparison is the unsigned one shifted by the same amount
                assert(top_set(a) == top_set(b));
            }
            self.uint.cmp_mags(&other.uint)
        } else {
            proof {
                if sdigit(self.uint.digits@) < sdigit(other.uint.digits@) {
                    lemma_sdigit_lt(self.uint.digits@, other.uint.digits@);
                } else {
                    lemma_sdigit_lt(other.uint.digits@, self.uint.digits@);
                }
            }
            if sa > sb {
                Ordering::Greater
            } else {
                Ordering::Less
            }
        }
    }

    /// The total order, as a partial comparison that always answers.
    pub fn partial_cmp(&self, other: &Self) -> (r: Option<Ordering>)
        requires
            self.wf(),
            other.wf(),
            self.n() == other.n(),
        ensures
            r matches Some(o) && o == Ordering::Less <==> self.ival() < other.ival(),
            r matches Some(o) && o == Ordering::Equal <==> self.ival() == other.ival(),
            r matches Some(o) && o == Ordering::Greater <==> self.ival() > other.ival(),
            r is Some,
    {
        Some(self.cmp(other))
    }
}

impl PartialEq for BintTest {
    fn eq(&self, other: &Self) -> (r: bool) {
        if self.uint.digits.len() != other.uint.digits.len() {
            return false;
        }
        let n = self.uint.digits.len();
        let mut i: usize = 0;
        while i < n
            invariant
                i <= n,
                n == self.uint.digits@.len() == other.uint.digits@.len(),
                forall|j: int| 0 <= j < i ==> self.uint.digits@[j] == other.uint.digits@[j],
            decreases n - i,
        {
            if self.uint.digits[i] != other.uint.digits[i] {
                proof {
                    assert(self.uint.digits@ != other.uint.digits@);
                }
                return false;
            }
            i += 1;
        }
        proof {
            assert(self.uint.digits@ =~= other.uint.digits@);
        }
        true
    }
}

impl vstd::std_specs::cmp::PartialEqSpecImpl for BintTest {
    open spec fn obeys_eq_spec() -> bool {
        true
    }

    open spec fn eq_spec(&self, other: &Self) -> bool {
        self.uint.digits@ == other.uint.digits@
    }
}

impl PartialOrd for BintTest {
    fn partial_cmp(&self, other: &Self) -> (r: Option<Ordering>) {
        let n = self.uint.digits.len();
        if n != other.uint.digits.len() || n < 1 || n > crate::uint::MAX_DIGITS {
            return None;
        }
        Some(self.cmp(other))
    }
}

impl vstd::std_specs::cmp::PartialOrdSpecImpl for BintTest {
    open spec fn obeys_partial_cmp_spec() -> bool {
        true
    }

    open spec fn partial_cmp_spec(&self, other: &Self) -> Option<Ordering> {
        if self.wf() && other.wf() && self.n() == other.n() {
            if self.ival() < other.ival() {
                Some(Ordering::Less)
            } else if self.ival() == other.ival() {
                Some(Ordering::Equal)
            } else {
                Some(Ordering::Greater)
            }
        } else {
            None
        }
    }
}

/// The ordering is a strict total order: at one width exactly one of the
/// three relations holds between two values, and less-than is transitive.
pub proof fn lemma_order_strict_total(a: BintTest, b: BintTest, c: BintTest)
    requires
        a.wf(),
        b.wf(),
        c.wf(),
        a.n() == b.n() == c.n(),
    ensures
        a.ival() < b.ival() || a.ival() == b.ival() || a.ival() > b.ival(),
        !(a.ival() < b.ival() && a.ival() == b.ival()),
        !(a.ival() < b.ival() && a.ival() > b.ival()),
        !(a.ival() == b.ival() && a.ival() > b.ival()),
        a.ival() < b.ival() && b.ival() < c.ival() ==> a.ival() < c.ival(),
{
}

} // verus!
