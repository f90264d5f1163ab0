//! Fixed-width 256-bit and 512-bit unsigned integers, Montgomery contexts
//! over both widths, and modular inversion at the type level.

use vstd::prelude::*;

verus! {

use vstd::arithmetic::power2::{pow2, lemma_pow2_adds, lemma_pow2_pos, lemma2_to64};
use vstd::arithmetic::div_mod::{
    lemma_fundamental_div_mod, lemma_fundamental_div_mod_converse, lemma_small_mod,
    lemma_mod_division_less_than_divisor, lemma_mul_mod_noop_left, lemma_mul_mod_noop_right,
    lemma_mod_multiples_vanish, lemma_mod_equivalence, lemma_mod_twice,
    lemma_mul_mod_noop_general,
};
use crate::limbs::{lnat, lemma_lnat_split, lemma_lnat_bound, lemma_lnat_parity};
use crate::modmath::{gcd, mod_add_limbs, inv_mod_limbs};
use crate::mont::{compute_neg_inv_word, compute_r2_limbs, mont_mul_limbs};

/// A 256-bit unsigned integer as four 64-bit limbs, least significant first.
#[derive(Clone, Copy, PartialEq, Eq, Debug)]
pub struct U256 {
    pub limbs: [u64; 4],
}

/// A 512-bit unsigned integer as eight 64-bit limbs, least significant first.
#[derive(Clone, Copy, PartialEq, Eq, Debug)]
pub struct U512 {
    pub limbs: [u64; 8],
}

impl U256 {
    /// The natural number this value denotes.
    pub open spec fn as_nat(self) -> nat {
        lnat(self.limbs@)
    }

    pub fn from_u64(x: u64) -> (r: U256)
        ensures
            r.as_nat() == x,
    {
        U256 { limbs: crate::limbs::from_u64_limbs(x) }
    }

    pub fn is_zero(&self) -> (r: bool)
        ensures
            r <==> self.as_nat() == 0,
    {
        crate::limbs::is_zero_limbs(&self.limbs)
    }

    /// Three-way comparison: -1, 0 or 1 as `self` is below, at or above `o`.
    pub fn cmp_with(&self, o: &U256) -> (r: i8)
        ensures
            r == 1i8 <==> self.as_nat() > o.as_nat(),
            r == 0i8 <==> self.as_nat() == o.as_nat(),
            r == -1i8 <==> self.as_nat() < o.as_nat(),
    {
        crate::limbs::cmp_limbs(&self.limbs, &o.limbs)
    }

    /// Whether two values denote the same number.
    pub fn eq_value(&self, o: &U256) -> (r: bool)
        ensures
            r <==> self.as_nat() == o.as_nat(),
    {
        self.cmp_with(o) == 0
    }

    /// Wrapping addition with a carry flag: the pair denotes the exact sum.
    pub fn overflowing_add(self, o: U256) -> (r: (U256, bool))
        ensures
            r.0.as_nat() + (if r.1 { pow2(256) } else { 0nat }) == self.as_nat() + o.as_nat(),
    {
        let (l, c) = crate::limbs::add_limbs(&self.limbs, &o.limbs);
        (U256 { limbs: l }, c)
    }

    /// Wrapping subtraction with a borrow flag: the pair denotes the exact
    /// difference.
    pub fn overflowing_sub(self, o: U256) -> (r: (U256, bool))
        ensures
            r.0.as_nat() as int == self.as_nat() as int - o.as_nat() as int
                + (if r.1 { pow2(256) as int } else { 0int }),
            r.1 <==> self.as_nat() < o.as_nat(),
    {
        let (l, b) = crate::limbs::sub_limbs(&self.limbs, &o.limbs);
        (U256 { limbs: l }, b)
    }

    /// Quotient and remainder.
    pub fn div_rem(self, d: U256) -> (r: (U256, U256))
        requires
            d.as_nat() >= 1,
        ensures
            r.0.as_nat() == self.as_nat() / d.as_nat(),
            r.1.as_nat() == self.as_nat() % d.as_nat(),
    {
        let (q, rm) = crate::divide::div_rem_limbs(&self.limbs, &d.limbs);
        (U256 { limbs: q }, U256 { limbs: rm })
    }
}

impl U512 {
    /// The natural number this value denotes.
    pub open spec fn as_nat(self) -> nat {
        lnat(self.limbs@)
    }

    pub fn from_u64(x: u64) -> (r: U512)
        ensures
            r.as_nat() == x,
    {
        U512 { limbs: crate::limbs::from_u64_limbs(x) }
    }

    /// The value `2^k`.
    pub fn from_pow2(k: usize) -> (r: U512)
        requires
            k < 512,
        ensures
            r.as_nat() == pow2(k as nat),
    {
        U512 { limbs: crate::limbs::pow2_limbs(k) }
    }

    pub fn is_zero(&self) -> (r: bool)
        ensures
            r <==> self.as_nat() == 0,
    {
        crate::limbs::is_zero_limbs(&self.limbs)
    }

    /// Three-way comparison: -1, 0 or 1 as `self` is below, at or above `o`.
    pub fn cmp_with(&self, o: &U512) -> (r: i8)
        ensures
            r == 1i8 <==> self.as_nat() > o.as_nat(),
            r == 0i8 <==> self.as_nat() == o.as_nat(),
            r == -1i8 <==> self.as_nat() < o.as_nat(),
    {
        crate::limbs::cmp_limbs(&self.limbs, &o.limbs)
    }

    /// Whether two values denote the same number.
    pub fn eq_value(&self, o: &U512) -> (r: bool)
        ensures
            r <==> self.as_nat() == o.as_nat(),
    {
        self.cmp_with(o) == 0
    }

    /// Wrapping addition with a carry flag: the pair denotes the exact sum.
    pub fn overflowing_add(self, o: U512) -> (r: (U512, bool))
        ensures
            r.0.as_nat() + (if r.1 { pow2(512) } else { 0nat }) == self.as_nat() + o.as_nat(),
    {
        let (l, c) = crate::limbs::add_limbs(&self.limbs, &o.limbs);
        (U512 { limbs: l }, c)
    }

    /// Wrapping subtraction with a borrow flag: the pair denotes the exact
    /// difference.
    pub fn overflowing_sub(self, o: U512) -> (r: (U512, bool))
        ensures
            r.0.as_nat() as int == self.as_nat() as int - o.as_nat() as int
                + (if r.1 { pow2(512) as int } else { 0int }),
            r.1 <==> self.as_nat() < o.as_nat(),
    {
        let (l, b) = crate::limbs::sub_limbs(&self.limbs, &o.limbs);
        (U512 { limbs: l }, b)
    }

    /// Halve the value.
    pub fn shr1(self) -> (r: U512)
        ensures
            r.as_nat() == self.as_nat() / 2,
    {
        U512 { limbs: crate::limbs::shr1_limbs(&self.limbs) }
    }

    /// Force the lowest bit on.
    pub fn make_odd(self) -> (r: U512)
        ensures
            r.as_nat() == self.as_nat() + 1 - self.as_nat() % 2,
            r.as_nat() % 2 == 1,
    {
        U512 { limbs: crate::limbs::make_odd_limbs(&self.limbs) }
    }

    /// Remainder by a single 64-bit word.
    pub fn rem_u64(&self, d: u64) -> (r: u64)
        requires
            d >= 1,
        ensures
            r == self.as_nat() % (d as nat),
    {
        crate::divide::rem_u64_limbs(&self.limbs, d)
    }

    /// Quotient and remainder.
    pub fn div_rem(self, d: U512) -> (r: (U512, U512))
        requires
            d.as_nat() >= 1,
        ensures
            r.0.as_nat() == self.as_nat() / d.as_nat(),
            r.1.as_nat() == self.as_nat() % d.as_nat(),
    {
        let (q, rm) = crate::divide::div_rem_limbs(&self.limbs, &d.limbs);
        (U512 { limbs: q }, U512 { limbs: rm })
    }
}

/// Truncate a 512-bit value to its low 256 bits.
pub fn u512_to_u256(v: U512) -> (r: U256)
    ensures
        r.as_nat() == v.as_nat() % pow2(256),
{
    let r = U256 { limbs: [v.limbs[0], v.limbs[1], v.limbs[2], v.limbs[3]] };
    proof {
        lemma_lnat_split(v.limbs@, 4);
        assert(v.limbs@.take(4) =~= r.limbs@);
        lemma_lnat_bound(r.limbs@);
        assert(r.limbs@.len() == 4);
        assert((64 * 4) as nat == 256nat);
        assert(lnat(r.limbs@) < pow2(256));
        lemma_pow2_pos(256);
        assert(lnat(v.limbs@) as int
            == lnat(v.limbs@.skip(4)) as int * pow2(256) as int + lnat(r.limbs@) as int)
            by (nonlinear_arith)
            requires
                lnat(v.limbs@) == lnat(r.limbs@) + pow2(256) * lnat(v.limbs@.skip(4)),
        ;
        lemma_fundamental_div_mod_converse(
            v.as_nat() as int, pow2(256) as int,
            lnat(v.limbs@.skip(4)) as int, lnat(r.limbs@) as int);
    }
    r
}

/// Widen a 256-bit value to 512 bits.
pub fn u256_to_u512(v: U256) -> (r: U512)
    ensures
        r.as_nat() == v.as_nat(),
{
    let r = U512 { limbs: [v.limbs[0], v.limbs[1], v.limbs[2], v.limbs[3], 0, 0, 0, 0] };
    proof {
        lemma_lnat_split(r.limbs@, 4);
        assert(r.limbs@.take(4) =~= v.limbs@);
        crate::limbs::lemma_lnat_zero(r.limbs@.skip(4));
        assert(forall|k: int| 0 <= k < r.limbs@.skip(4).len() ==> r.limbs@.skip(4)[k] == 0);
        assert(pow2((64 * 4) as nat) * lnat(r.limbs@.skip(4)) == 0) by {
            assert(lnat(r.limbs@.skip(4)) == 0);
        }
    }
    r
}

/// The diagnostic line the driver emits before halting on a fatal fault.
pub fn exit() -> (r: &'static str)
    ensures
        r@ == "Exiting...\n"@,
{
    "Exiting...\n"
}

/// An odd modulus divides a value whenever it divides that value scaled by
/// a power of two.
pub proof fn lemma_odd_pow2_cancel(n: int, k: nat, d: int)
    requires
        n >= 1,
        n % 2 == 1,
        (d * pow2(k) as int) % n == 0,
    ensures
        d % n == 0,
    decreases k,
{
    lemma_pow2_pos(k);
    if k == 0 {
        assert(pow2(0) == 1) by { lemma2_to64(); }
        assert(d * 1 == d);
    } else {
        lemma_pow2_adds(1, (k - 1) as nat);
        assert(pow2(1) == 2) by { lemma2_to64(); }
        assert(d * pow2(k) as int == (2 * d) * pow2((k - 1) as nat) as int)
            by (nonlinear_arith)
            requires
                pow2(k) == pow2(1) * pow2((k - 1) as nat),
                pow2(1) == 2,
        ;
        lemma_odd_pow2_cancel(n, (k - 1) as nat, 2 * d);
        // n | 2d and n odd, so n | d
        let q = (2 * d) / n;
        lemma_fundamental_div_mod(2 * d, n);
        assert(2 * d == n * q);
        // q is even: n*q is even and n is odd
        lemma_mul_mod_noop_general(n, q, 2);
        assert((n * q) % 2 == 0) by {
            assert(n * q == 2 * d);
            lemma_mod_multiples_vanish(d, 0, 2);
        }
        assert(((n % 2) * (q % 2)) % 2 == 0);
        assert((q % 2) % 2 == q % 2) by {
            lemma_mod_division_less_than_divisor(q, 2);
            lemma_small_mod((q % 2) as nat, 2);
        }
        assert(q % 2 == 0) by {
            assert((1int * (q % 2)) == q % 2);
        }
        let h = q / 2;
        lemma_fundamental_div_mod(q, 2);
        assert(q == 2 * h);
        assert(d == n * h) by (nonlinear_arith)
            requires
                2 * d == n * q,
                q == 2 * h,
        ;
        lemma_mod_multiples_vanish(h, 0, n);
    }
}

/// Two reduced values that agree after scaling by a power of two modulo an
/// odd modulus are equal.
pub proof fn lemma_mont_cancel(n: int, k: nat, x: int, y: int)
    requires
        n >= 1,
        n % 2 == 1,
        0 <= x < n,
        0 <= y < n,
        (x * pow2(k) as int) % n == (y * pow2(k) as int) % n,
    ensures
        x == y,
{
    let r = pow2(k) as int;
    lemma_mod_equivalence(x * r, y * r, n);
    assert((x * r - y * r) % n == 0);
    assert(x * r - y * r == (x - y) * r) by (nonlinear_arith);
    lemma_odd_pow2_cancel(n, k, x - y);
    if x >= y {
        lemma_small_mod((x - y) as nat, n as nat);
    } else {
        lemma_mod_equivalence(x - y, 0, n);
        assert((y - x) % n == 0) by {
            lemma_mod_equivalence(0, y - x, n);
            assert((0 - (x - y)) % n == (y - x) % n);
        }
        lemma_small_mod((y - x) as nat, n as nat);
    }
}

/// Round trip through the Montgomery domain: converting in and back out
/// returns the value unchanged.
pub proof fn lemma_mont_round_trip(n: int, k: nat, a: int, t: int, f: int)
    requires
        n >= 2,
        n % 2 == 1,
        0 <= a < n,
        t == (a * pow2(k) as int) % n,
        0 <= f < n,
        (f * pow2(k) as int) % n == t % n,
    ensures
        f == a,
{
    lemma_mod_division_less_than_divisor(a * pow2(k) as int, n);
    lemma_small_mod(t as nat, n as nat);
    lemma_mod_twice(a * pow2(k) as int, n);
    lemma_mont_cancel(n, k, f, a);
}

/// A Montgomery product of two converted factors, converted back out, is
/// the modular product of the originals.
pub proof fn lemma_mont_mul_round_trip(
    n: int, k: nat, a: int, b: int, ta: int, tb: int, m: int, f: int)
    requires
        n >= 2,
        n % 2 == 1,
        0 <= a < n,
        0 <= b < n,
        ta == (a * pow2(k) as int) % n,
        tb == (b * pow2(k) as int) % n,
        0 <= m < n,
        (m * pow2(k) as int) % n == (ta * tb) % n,
        0 <= f < n,
        (f * pow2(k) as int) % n == m % n,
    ensures
        f == (a * b) % n,
{
    let r = pow2(k) as int;
    let r2k = pow2((2 * k) as nat) as int;
    lemma_pow2_pos(k);
    lemma_pow2_adds(k, k);
    assert(r2k == r * r);
    lemma_small_mod(m as nat, n as nat);
    // (f * r^2) % n == (m * r) % n
    lemma_mod_equivalence(f * r, m, n);
    let q = (f * r - m) / n;
    lemma_fundamental_div_mod(f * r - m, n);
    assert(f * r - m == n * q);
    assert(f * r2k - m * r == n * (q * r)) by (nonlinear_arith)
        requires
            f * r - m == n * q,
            r2k == r * r,
    ;
    assert((f * r2k - m * r) % n == 0) by {
        lemma_mod_multiples_vanish(q * r, 0, n);
    }
    lemma_mod_equivalence(f * r2k, m * r, n);
    // (m * r) % n == (ta * tb) % n == ((a*b) * r^2) % n
    lemma_mul_mod_noop_general(a * r, b * r, n);
    assert((ta * tb) % n == ((a * r) * (b * r)) % n);
    assert((a * r) * (b * r) == (a * b) * r2k) by (nonlinear_arith)
        requires
            r2k == r * r,
    ;
    // replace a*b by its residue and cancel the power of two
    let g = (a * b) % n;
    lemma_mul_mod_noop_left(a * b, r2k, n);
    lemma_mod_division_less_than_divisor(a * b, n);
    vstd::arithmetic::mul::lemma_mul_nonnegative(a, b);
    assert((f * r2k) % n == (g * r2k) % n);
    lemma_mont_cancel(n, (2 * k) as nat, f, g);
}

/// A Montgomery context over 256-bit values: the odd modulus, the negated
/// word inverse of its low limb, and R^2 mod n for R = 2^256.
#[derive(Clone, Copy)]
pub struct MontCtxU256 {
    pub n: U256,
    pub n_inv: u64,
    pub r2: U256,
}

impl MontCtxU256 {
    /// The context is built for its modulus: the word inverse and R^2 match.
    pub open spec fn wf(self) -> bool {
        &&& self.n.as_nat() >= 2
        &&& self.n.as_nat() % 2 == 1
        &&& ((self.n.limbs@[0] as int) * (self.n_inv as int) + 1) % pow2(64) as int == 0
        &&& self.r2.as_nat() == pow2(512) % self.n.as_nat()
    }

    /// Precompute the per-modulus constants.
    pub fn new(n: U256) -> (r: MontCtxU256)
        requires
            n.as_nat() >= 2,
            n.as_nat() % 2 == 1,
        ensures
            r.wf(),
            r.n == n,
    {
        proof {
            lemma_lnat_parity(n.limbs@);
        }
        let n_inv = compute_neg_inv_word(n.limbs[0]);
        let r2l = compute_r2_limbs(&n.limbs);
        proof {
            assert((128 * 4) as nat == 512nat);
        }
        MontCtxU256 { n, n_inv, r2: U256 { limbs: r2l } }
    }

    /// CIOS Montgomery multiplication: `r * R == a * b (mod n)`.
    pub fn mont_mul(&self, a: U256, b: U256) -> (r: U256)
        requires
            self.wf(),
            a.as_nat() < self.n.as_nat(),
            b.as_nat() < self.n.as_nat(),
        ensures
            r.as_nat() < self.n.as_nat(),
            (r.as_nat() * pow2(256)) % self.n.as_nat()
                == (a.as_nat() * b.as_nat()) % self.n.as_nat(),
    {
        let l = mont_mul_limbs(&a.limbs, &b.limbs, &self.n.limbs, self.n_inv);
        proof {
            assert((64 * 4) as nat == 256nat);
        }
        U256 { limbs: l }
    }

    /// Convert into the Montgomery domain: `r == a * R mod n`.
    pub fn to_mont(&self, a: U256) -> (r: U256)
        requires
            self.wf(),
            a.as_nat() < self.n.as_nat(),
        ensures
            r.as_nat() == (a.as_nat() * pow2(256)) % self.n.as_nat(),
    {
        let ghost nn = self.n.as_nat() as int;
        proof {
            lemma_mod_division_less_than_divisor(pow2(512) as int, nn);
        }
        let r = self.mont_mul(a, self.r2);
        proof {
            let an = a.as_nat() as int;
            let rr = pow2(256) as int;
            lemma_pow2_pos(256);
            lemma_pow2_adds(256, 256);
            // a * r2 == a * R * R  (mod n)
            lemma_mul_mod_noop_right(an, pow2(512) as int, nn);
            assert((an * (pow2(512) as int)) % nn == (an * self.r2.as_nat()) % nn) by {
                assert((an * ((pow2(512) as int) % nn)) % nn == (an * pow2(512) as int) % nn);
            }
            assert(an * pow2(512) as int == (an * rr) * rr) by (nonlinear_arith)
                requires
                    pow2(512) as int == rr * rr,
            ;
            // so r * R == (a*R) * R (mod n); cancel R
            let g = (an * rr) % nn;
            lemma_mul_mod_noop_left(an * rr, rr, nn);
            lemma_mod_division_less_than_divisor(an * rr, nn);
            vstd::arithmetic::mul::lemma_mul_nonnegative(an, rr);
            assert((r.as_nat() as int * rr) % nn == (g * rr) % nn);
            lemma_mont_cancel(nn, 256, r.as_nat() as int, g);
        }
        r
    }

    /// Convert out of the Montgomery domain: `r * R == a (mod n)`.
    pub fn from_mont(&self, a: U256) -> (r: U256)
        requires
            self.wf(),
            a.as_nat() < self.n.as_nat(),
        ensures
            r.as_nat() < self.n.as_nat(),
            (r.as_nat() * pow2(256)) % self.n.as_nat() == a.as_nat() % self.n.as_nat(),
    {
        let one = U256::from_u64(1);
        let r = self.mont_mul(a, one);
        proof {
            assert(a.as_nat() * 1 == a.as_nat()) by (nonlinear_arith);
        }
        r
    }

    /// Modular addition of two reduced values.
    pub fn mont_add(&self, a: U256, b: U256) -> (r: U256)
        requires
            self.wf(),
            a.as_nat() < self.n.as_nat(),
            b.as_nat() < self.n.as_nat(),
        ensures
            r.as_nat() == (a.as_nat() + b.as_nat()) % self.n.as_nat(),
    {
        U256 { limbs: mod_add_limbs(&a.limbs, &b.limbs, &self.n.limbs) }
    }

    /// Modular subtraction of two reduced values.
    pub fn mont_sub(&self, a: U256, b: U256) -> (r: U256)
        requires
            self.wf(),
            a.as_nat() < self.n.as_nat(),
            b.as_nat() < self.n.as_nat(),
        ensures
            r.as_nat() as int
                == (a.as_nat() as int - b.as_nat() as int) % (self.n.as_nat() as int),
    {
        let ghost nn = self.n.as_nat() as int;
        let ghost av = a.as_nat() as int;
        let ghost bv = b.as_nat() as int;
        let (d, borrow) = a.overflowing_sub(b);
        if borrow {
            let (s, c) = d.overflowing_add(self.n);
            proof {
                lemma_lnat_bound(s.limbs@);
                lemma_lnat_bound(self.n.limbs@);
                assert(s.as_nat() as int == av - bv + nn);
                lemma_fundamental_div_mod_converse(av - bv, nn, -1, av - bv + nn);
            }
            s
        } else {
            proof {
                assert(d.as_nat() as int == av - bv);
                lemma_small_mod((av - bv) as nat, nn as nat);
            }
            d
        }
    }
}

/// A Montgomery context over 512-bit values: the odd modulus, the negated
/// word inverse of its low limb, and R^2 mod n for R = 2^512.
#[derive(Clone, Copy)]
pub struct MontCtxU512 {
    pub n: U512,
    pub n_inv: u64,
    pub r2: U512,
}

impl MontCtxU512 {
    /// The context is built for its modulus: the word inverse and R^2 match.
    pub open spec fn wf(self) -> bool {
        &&& self.n.as_nat() >= 2
        &&& self.n.as_nat() % 2 == 1
        &&& ((self.n.limbs@[0] as int) * (self.n_inv as int) + 1) % pow2(64) as int == 0
        &&& self.r2.as_nat() == pow2(1024) % self.n.as_nat()
    }

    /// Precompute the per-modulus constants.
    pub fn new(n: U512) -> (r: MontCtxU512)
        requires
            n.as_nat() >= 2,
            n.as_nat() % 2 == 1,
        ensures
            r.wf(),
            r.n == n,
    {
        proof {
            lemma_lnat_parity(n.limbs@);
        }
        let n_inv = compute_neg_inv_word(n.limbs[0]);
        let r2l = compute_r2_limbs(&n.limbs);
        proof {
            assert((128 * 8) as nat == 1024nat);
        }
        MontCtxU512 { n, n_inv, r2: U512 { limbs: r2l } }
    }

    /// CIOS Montgomery multiplication: `r * R == a * b (mod n)`.
    pub fn mont_mul(&self, a: U512, b: U512) -> (r: U512)
        requires
            self.wf(),
            a.as_nat() < self.n.as_nat(),
            b.as_nat() < self.n.as_nat(),
        ensures
            r.as_nat() < self.n.as_nat(),
            (r.as_nat() * pow2(512)) % self.n.as_nat()
                == (a.as_nat() * b.as_nat()) % self.n.as_nat(),
    {
        let l = mont_mul_limbs(&a.limbs, &b.limbs, &self.n.limbs, self.n_inv);
        proof {
            assert((64 * 8) as nat == 512nat);
        }
        U512 { limbs: l }
    }

    /// Convert into the Montgomery domain: `r == a * R mod n`.
    pub fn to_mont(&self, a: U512) -> (r: U512)
        requires
            self.wf(),
            a.as_nat() < self.n.as_nat(),
        ensures
            r.as_nat() == (a.as_nat() * pow2(512)) % self.n.as_nat(),
    {
        let ghost nn = self.n.as_nat() as int;
        proof {
            lemma_mod_division_less_than_divisor(pow2(1024) as int, nn);
        }
        let r = self.mont_mul(a, self.r2);
        proof {
            let an = a.as_nat() as int;
            let rr = pow2(512) as int;
            lemma_pow2_pos(512);
            lemma_pow2_adds(512, 512);
            lemma_mul_mod_noop_right(an, pow2(1024) as int, nn);
            assert((an * (pow2(1024) as int)) % nn == (an * self.r2.as_nat()) % nn) by {
                assert((an * ((pow2(1024) as int) % nn)) % nn
                    == (an * pow2(1024) as int) % nn);
            }
            assert(an * pow2(1024) as int == (an * rr) * rr) by (nonlinear_arith)
                requires
                    pow2(1024) as int == rr * rr,
            ;
            let g = (an * rr) % nn;
            lemma_mul_mod_noop_left(an * rr, rr, nn);
            lemma_mod_division_less_than_divisor(an * rr, nn);
            vstd::arithmetic::mul::lemma_mul_nonnegative(an, rr);
            assert((r.as_nat() as int * rr) % nn == (g * rr) % nn);
            lemma_mont_cancel(nn, 512, r.as_nat() as int, g);
        }
        r
    }

    /// Convert out of the Montgomery domain: `r * R == a (mod n)`.
    pub fn from_mont(&self, a: U512) -> (r: U512)
        requires
            self.wf(),
            a.as_nat() < self.n.as_nat(),
        ensures
            r.as_nat() < self.n.as_nat(),
            (r.as_nat() * pow2(512)) % self.n.as_nat() == a.as_nat() % self.n.as_nat(),
    {
        let one = U512::from_u64(1);
        let r = self.mont_mul(a, one);
        proof {
            assert(a.as_nat() * 1 == a.as_nat()) by (nonlinear_arith);
        }
        r
    }

    /// Modular addition of two reduced values.
    pub fn mont_add(&self, a: U512, b: U512) -> (r: U512)
        requires
            self.wf(),
            a.as_nat() < self.n.as_nat(),
            b.as_nat() < self.n.as_nat(),
        ensures
            r.as_nat() == (a.as_nat() + b.as_nat()) % self.n.as_nat(),
    {
        U512 { limbs: mod_add_limbs(&a.limbs, &b.limbs, &self.n.limbs) }
    }
}

/// Modular inverse of `a` modulo `m`, for callers that have already ruled
/// out a shared factor.
pub fn mod_inv(a: U512, m: U512) -> (r: U512)
    requires
        m.as_nat() >= 1,
        gcd(a.as_nat(), m.as_nat()) == 1,
    ensures
        r.as_nat() <= m.as_nat(),
        (a.as_nat() * r.as_nat()) % m.as_nat() == 1nat % m.as_nat(),
{
    let res = inv_mod_limbs(&a.limbs, &m.limbs);
    match res {
        Some(x) => U512 { limbs: x },
        None => {
            proof {
                assert(false);
            }
            U512::from_u64(0)
        }
    }
}

/// Modular inverse over 256-bit values, through the 512-bit width.
pub fn mod_inv_u256(a: U256, m: U256) -> (r: U256)
    requires
        m.as_nat() >= 1,
        gcd(a.as_nat(), m.as_nat()) == 1,
    ensures
        r.as_nat() <= m.as_nat(),
        (a.as_nat() * r.as_nat()) % m.as_nat() == 1nat % m.as_nat(),
{
    let aw = u256_to_u512(a);
    let mw = u256_to_u512(m);
    let rw = mod_inv(aw, mw);
    let r = u512_to_u256(rw);
    proof {
        lemma_lnat_bound(m.limbs@);
        lemma_small_mod(rw.as_nat(), pow2(256));
    }
    r
}

} // verus!
