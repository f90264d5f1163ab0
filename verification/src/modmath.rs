//! Modulus-aware arithmetic on limb values: modular addition, exact and
//! modular multiplication by schoolbook doubling, modular exponentiation,
//! and the extended Euclidean algorithm with sign-tracked coefficients.

use vstd::prelude::*;

verus! {

use vstd::arithmetic::power2::{pow2, lemma_pow2_adds, lemma_pow2_pos, lemma2_to64};
use vstd::arithmetic::power::{
    pow, lemma_pow0, lemma_pow1, lemma_pow_adds, lemma_pow_distributes, lemma_pow_mod_noop,
    lemma_pow_positive,
};
use vstd::arithmetic::div_mod::{
    lemma_fundamental_div_mod, lemma_fundamental_div_mod_converse,
    lemma_div_denominator, lemma_mod_division_less_than_divisor,
    lemma_small_mod, lemma_mul_mod_noop_right, lemma_mul_mod_noop_left,
    lemma_add_mod_noop, lemma_add_mod_noop_right, lemma_mod_multiples_vanish,
    lemma_div_nonincreasing, lemma_basic_div,
};
use crate::limbs::{
    lnat, lemma_lnat_bound, add_limbs, sub_limbs, cmp_limbs, from_u64_limbs,
    is_zero_limbs, shr1_limbs,
};
use crate::divide::{bit_limbs, div_rem_limbs};

/// The greatest common divisor.
pub open spec fn gcd(a: nat, b: nat) -> nat
    decreases b,
{
    if b == 0 {
        a
    } else {
        gcd(b, a % b)
    }
}

/// The signed value carried as a magnitude with a separate sign flag.
pub open spec fn signed_val(mag: nat, neg: bool) -> int {
    if neg {
        -(mag as int)
    } else {
        mag as int
    }
}

/// Modular addition of two already-reduced values.
pub fn mod_add_limbs<const N: usize>(a: &[u64; N], b: &[u64; N], m: &[u64; N]) -> (r: [u64; N])
    requires
        lnat(a@) < lnat(m@),
        lnat(b@) < lnat(m@),
    ensures
        lnat(r@) == (lnat(a@) + lnat(b@)) % lnat(m@),
{
    let ghost mn = lnat(m@) as int;
    let ghost v = lnat(a@) as int + lnat(b@) as int;
    let (s, c) = add_limbs(a, b);
    proof {
        lemma_lnat_bound(m@);
        lemma_lnat_bound(s@);
    }
    let reduce = c || cmp_limbs(&s, m) >= 0;
    if reduce {
        let (rs, _borrow) = sub_limbs(&s, m);
        proof {
            let rwide = pow2((64 * N) as nat) as int;
            if c {
                assert(lnat(s@) as int == v - rwide);
                assert(v >= rwide);
            }
            assert(v >= mn);
            lemma_lnat_bound(rs@);
            assert(lnat(rs@) as int == v - mn);
            lemma_fundamental_div_mod_converse(v, mn, 1, v - mn);
        }
        rs
    } else {
        proof {
            assert(lnat(s@) as int == v);
            assert(v < mn);
            lemma_small_mod(v as nat, mn as nat);
        }
        s
    }
}

/// Exact product of two limb values whose product fits the width, by
/// double-and-add over the multiplier bits from the most significant down.
pub fn mul_exact_limbs<const N: usize>(a: &[u64; N], b: &[u64; N]) -> (r: [u64; N])
    requires
        N >= 1,
        64 * N <= usize::MAX,
        lnat(a@) * lnat(b@) < pow2((64 * N) as nat),
    ensures
        lnat(r@) == lnat(a@) * lnat(b@),
{
    let mut acc: [u64; N] = from_u64_limbs(0);
    let mut k: usize = 64 * N;
    let ghost an = lnat(a@) as int;
    let ghost bn = lnat(b@) as int;
    let ghost rwide = pow2((64 * N) as nat) as int;
    proof {
        lemma_lnat_bound(b@);
        lemma_basic_div(bn, rwide);
        lemma_pow2_pos((64 * N) as nat);
        assert(an * 0 == 0) by (nonlinear_arith);
    }
    while k > 0
        invariant
            k <= 64 * N,
            lnat(a@) == an && lnat(b@) == bn,
            an * bn < rwide,
            rwide == pow2((64 * N) as nat),
            acc@.len() == N,
            lnat(acc@) as int == an * (bn / pow2(k as nat) as int),
        decreases k,
    {
        k = k - 1;
        let ghost h_prev = bn / pow2((k + 1) as nat) as int;
        let ghost h = bn / pow2(k as nat) as int;
        let bit = bit_limbs(b, k);
        let ghost bitv: int = if bit { 1int } else { 0int };
        proof {
            lemma_pow2_adds(k as nat, 1);
            assert(pow2(1) == 2) by { lemma2_to64(); }
            lemma_pow2_pos(k as nat);
            lemma_div_denominator(bn, pow2(k as nat) as int, 2);
            lemma_fundamental_div_mod(h, 2);
            lemma_mod_division_less_than_divisor(h, 2);
            assert(h == 2 * h_prev + bitv);
            // a * h stays under the width
            lemma_div_nonincreasing(bn, pow2(k as nat) as int);
            assert(h >= 0 && h <= bn);
            assert(an * h <= an * bn) by (nonlinear_arith)
                requires
                    0 <= h <= bn,
                    an >= 0,
            ;
            assert(an * h == 2 * (an * h_prev) + an * bitv) by (nonlinear_arith)
                requires
                    h == 2 * h_prev + bitv,
            ;
        }
        let (doubled, c1) = add_limbs(&acc, &acc);
        proof {
            assert(lnat(doubled@) as int + (if c1 { rwide } else { 0int })
                == 2 * (an * h_prev));
            assert(!c1);
        }
        if bit {
            let (summed, c2) = add_limbs(&doubled, a);
            proof {
                assert(lnat(summed@) as int + (if c2 { rwide } else { 0int })
                    == 2 * (an * h_prev) + an);
                assert(!c2);
            }
            acc = summed;
        } else {
            acc = doubled;
        }
        proof {
            assert(lnat(acc@) as int == an * h);
        }
    }
    proof {
        assert(pow2(0) == 1) by { lemma2_to64(); }
        assert(bn / 1 == bn) by {
            lemma_fundamental_div_mod_converse(bn, 1, bn, 0);
        }
    }
    acc
}

/// Modular product `(a * b) % m`, by conditional accumulation and doubling
/// of the multiplicand, both kept reduced, over the multiplier bits.
pub fn mulmod_limbs<const N: usize>(a: &[u64; N], b: &[u64; N], m: &[u64; N]) -> (r: [u64; N])
    requires
        N >= 1,
        64 * N <= usize::MAX,
        lnat(m@) >= 1,
    ensures
        lnat(r@) == (lnat(a@) * lnat(b@)) % lnat(m@),
{
    let ghost mn = lnat(m@) as int;
    let ghost an = lnat(a@) as int;
    let ghost bn = lnat(b@) as int;
    let (_q1, ar) = div_rem_limbs(a, m);
    let (_q2, br) = div_rem_limbs(b, m);
    let mut result: [u64; N] = from_u64_limbs(0);
    let mut mc = ar;
    let mut mult = br;
    proof {
        lemma_mod_division_less_than_divisor(an, mn);
        lemma_mod_division_less_than_divisor(bn, mn);
        vstd::arithmetic::div_mod::lemma_mul_mod_noop_general(an, bn, mn);
        assert(0int % mn == 0) by {
            lemma_fundamental_div_mod_converse(0, mn, 0, 0);
        }
        assert((0 + lnat(mc@) as int * lnat(mult@) as int) % mn == (an * bn) % mn);
    }
    while !is_zero_limbs(&mult)
        invariant
            lnat(m@) == mn && mn >= 1,
            lnat(a@) == an && lnat(b@) == bn,
            result@.len() == N && mc@.len() == N && mult@.len() == N,
            lnat(result@) < mn,
            lnat(mc@) < mn,
            (lnat(result@) as int + lnat(mc@) as int * lnat(mult@) as int) % mn == (an * bn) % mn,
        decreases lnat(mult@),
    {
        let ghost res0 = lnat(result@) as int;
        let ghost mc0 = lnat(mc@) as int;
        let ghost mu0 = lnat(mult@) as int;
        let odd = bit_limbs(&mult, 0);
        proof {
            assert(pow2(0) == 1) by { lemma2_to64(); }
            assert(mu0 / 1 == mu0) by {
                lemma_fundamental_div_mod_converse(mu0, 1, mu0, 0);
            }
        }
        if odd {
            result = mod_add_limbs(&result, &mc, m);
            proof {
                lemma_mod_division_less_than_divisor(res0 + mc0, mn);
                // (result' + mc * (mult - 1)) % m is unchanged
                lemma_add_mod_noop_right(mc0 * (mu0 - 1), res0 + mc0, mn);
                assert(res0 + mc0 + mc0 * (mu0 - 1) == res0 + mc0 * mu0) by (nonlinear_arith);
            }
        }
        let ghost res1 = lnat(result@) as int;
        let ghost bitv: int = if odd { 1int } else { 0int };
        proof {
            // in both cases: (res1 + mc0 * (mu0 - bitv)) % mn == (an * bn) % mn
            if odd {
                assert((res1 + mc0 * (mu0 - bitv)) % mn == (an * bn) % mn) by {
                    assert(((res0 + mc0) % mn + mc0 * (mu0 - 1)) % mn
                        == (res0 + mc0 + mc0 * (mu0 - 1)) % mn);
                }
            } else {
                lemma_fundamental_div_mod(mu0, 2);
                assert(mu0 % 2 != 1);
                assert(mu0 == 2 * (mu0 / 2));
            }
        }
        mult = shr1_limbs(&mult);
        proof {
            lemma_fundamental_div_mod(mu0, 2);
            assert(mu0 % 2 == bitv);
            assert(lnat(mult@) as int == (mu0 - bitv) / 2);
            assert(mu0 - bitv == 2 * ((mu0 - bitv) / 2)) by (nonlinear_arith)
                requires
                    mu0 == 2 * (mu0 / 2) + bitv,
                    bitv == mu0 % 2,
                    lnat(mult@) as int == (mu0 - bitv) / 2,
            ;
        }
        let ghost mu1 = lnat(mult@) as int;
        if !is_zero_limbs(&mult) {
            mc = mod_add_limbs(&mc, &mc, m);
            proof {
                lemma_mod_division_less_than_divisor(mc0 + mc0, mn);
                // mc' * mult' == (2 mc % m) * mu1 and (res1 + 2 mc * mu1) % m unchanged
                lemma_mul_mod_noop_left(2 * mc0, mu1, mn);
                lemma_add_mod_noop_right(res1, (2 * mc0) * mu1, mn);
                lemma_add_mod_noop_right(res1, ((2 * mc0) % mn) * mu1, mn);
                assert(mc0 * (mu0 - bitv) == (2 * mc0) * mu1) by (nonlinear_arith)
                    requires
                        mu0 - bitv == 2 * mu1,
                ;
                assert(lnat(mc@) as int == (2 * mc0) % mn);
            }
        } else {
            proof {
                assert(mu1 == 0);
                assert(mc0 * (mu0 - bitv) == 0) by (nonlinear_arith)
                    requires
                        mu0 - bitv == 2 * mu1,
                        mu1 == 0,
                ;
                assert(lnat(mc@) as int * mu1 == 0) by (nonlinear_arith)
                    requires
                        mu1 == 0,
                ;
            }
        }
        proof {
            assert((lnat(result@) as int + lnat(mc@) as int * lnat(mult@) as int) % mn
                == (an * bn) % mn);
        }
    }
    proof {
        assert(lnat(mult@) == 0);
        assert(lnat(mc@) as int * 0 == 0) by (nonlinear_arith);
        lemma_small_mod(lnat(result@), mn as nat);
        assert(lnat(result@) as int == (an * bn) % mn);
    }
    result
}

/// Modular exponentiation `pow(base, exp) % m` by square-and-multiply over
/// the exponent bits from the least significant up.
pub fn powmod_limbs<const N: usize>(base: &[u64; N], exp: &[u64; N], m: &[u64; N])
    -> (r: [u64; N])
    requires
        N >= 1,
        64 * N <= usize::MAX,
        lnat(m@) >= 1,
    ensures
        lnat(r@) as int == pow(lnat(base@) as int, lnat(exp@)) % lnat(m@) as int,
{
    let ghost mn = lnat(m@) as int;
    let ghost goal = pow(lnat(base@) as int, lnat(exp@)) % mn;
    let one: [u64; N] = from_u64_limbs(1);
    if cmp_limbs(m, &one) == 0 {
        proof {
            lemma_mod_division_less_than_divisor(pow(lnat(base@) as int, lnat(exp@)), 1);
        }
        let z: [u64; N] = from_u64_limbs(0);
        return z;
    }
    let (_q, mut b) = div_rem_limbs(base, m);
    let mut e = *exp;
    let mut result: [u64; N] = one;
    proof {
        lemma_mod_division_less_than_divisor(lnat(base@) as int, mn);
        lemma_pow_mod_noop(lnat(base@) as int, lnat(exp@), mn);
        lemma_mul_mod_noop_left(pow(lnat(b@) as int, lnat(e@)), 1, mn);
        assert((1int * pow(lnat(b@) as int, lnat(e@))) % mn == goal) by {
            assert(1int * pow(lnat(b@) as int, lnat(e@)) == pow(lnat(b@) as int, lnat(e@)))
                by (nonlinear_arith);
        }
    }
    while !is_zero_limbs(&e)
        invariant
            N >= 1,
            64 * N <= usize::MAX,
            lnat(m@) == mn && mn >= 2,
            result@.len() == N && b@.len() == N && e@.len() == N,
            lnat(result@) < mn,
            lnat(b@) < mn,
            (lnat(result@) as int * pow(lnat(b@) as int, lnat(e@))) % mn == goal,
        decreases lnat(e@),
    {
        let ghost res0 = lnat(result@) as int;
        let ghost x = lnat(b@) as int;
        let ghost e0 = lnat(e@) as int;
        let odd = bit_limbs(&e, 0);
        let ghost bitv: int = if odd { 1int } else { 0int };
        proof {
            assert(pow2(0) == 1) by { lemma2_to64(); }
            assert(e0 / 1 == e0) by {
                lemma_fundamental_div_mod_converse(e0, 1, e0, 0);
            }
            lemma_fundamental_div_mod(e0, 2);
            assert(e0 % 2 == bitv);
        }
        if odd {
            result = mulmod_limbs(&result, &b, m);
            proof {
                lemma_mod_division_less_than_divisor(res0 * x, mn);
                // result' * x^(e-1) keeps the goal
                lemma_pow1(x);
                lemma_pow_adds(x, 1, (e0 - 1) as nat);
                lemma_mul_mod_noop_left(res0 * x, pow(x, (e0 - 1) as nat), mn);
                assert((res0 * x) * pow(x, (e0 - 1) as nat) == res0 * pow(x, e0 as nat))
                    by (nonlinear_arith)
                    requires
                        pow(x, e0 as nat) == pow(x, 1) * pow(x, (e0 - 1) as nat),
                        pow(x, 1) == x,
                ;
                assert(lnat(result@) as int == (res0 * x) % mn);
            }
        }
        let ghost res1 = lnat(result@) as int;
        proof {
            assert((res1 * pow(x, (e0 - bitv) as nat)) % mn == goal);
        }
        e = shr1_limbs(&e);
        let ghost e1 = lnat(e@) as int;
        proof {
            assert(e1 == e0 / 2);
            assert(e0 - bitv == 2 * e1) by (nonlinear_arith)
                requires
                    e0 == 2 * (e0 / 2) + bitv,
                    e1 == e0 / 2,
            ;
        }
        b = mulmod_limbs(&b, &b, m);
        proof {
            lemma_mod_division_less_than_divisor(x * x, mn);
            // (x*x % m)^(e/2) stands in for x^(e - bit)
            lemma_pow_mod_noop(x * x, e1 as nat, mn);
            lemma_pow_distributes(x, x, e1 as nat);
            lemma_pow_adds(x, e1 as nat, e1 as nat);
            assert(pow(x * x, e1 as nat) == pow(x, (e0 - bitv) as nat));
            lemma_mul_mod_noop_right(res1, pow(lnat(b@) as int, e1 as nat), mn);
            lemma_mul_mod_noop_right(res1, pow(x * x, e1 as nat), mn);
            assert(lnat(b@) as int == (x * x) % mn);
            assert((res1 * pow(lnat(b@) as int, e1 as nat)) % mn == goal);
        }
    }
    proof {
        lemma_pow0(lnat(b@) as int);
        assert(lnat(result@) as int * 1 == lnat(result@) as int) by (nonlinear_arith);
        lemma_small_mod(lnat(result@), mn as nat);
    }
    result
}

/// Extended Euclid on `a` and `b`: the gcd, a Bezout coefficient for `a` as
/// a magnitude with sign flag, and (ghost) the matching coefficient for `b`.
#[verifier::rlimit(60)]
pub fn egcd_limbs<const N: usize>(a: &[u64; N], b: &[u64; N])
    -> (res: ([u64; N], [u64; N], bool, Ghost<int>))
    requires
        N >= 1,
        64 * N <= usize::MAX,
    ensures
        lnat(res.0@) == gcd(lnat(a@), lnat(b@)),
        signed_val(lnat(res.1@), res.2) * lnat(a@) + res.3@ * lnat(b@) == lnat(res.0@),
{
    let ghost an = lnat(a@) as int;
    let ghost bn = lnat(b@) as int;
    let mut old_r: [u64; N] = *a;
    let mut r: [u64; N] = *b;
    let mut old_s: [u64; N] = from_u64_limbs(1);
    let mut s: [u64; N] = from_u64_limbs(0);
    let mut old_sn: bool = false;
    let mut sn: bool = false;
    let ghost mut old_t: int = 0;
    let ghost mut t: int = 1;
    proof {
        assert(1int * an + 0int * bn == an);
        assert(0int * an + 1int * bn == bn);
        assert(0int * (lnat(old_r@) as int) + 1int * (lnat(r@) as int) == bn);
    }
    while !is_zero_limbs(&r)
        invariant
            N >= 1,
            64 * N <= usize::MAX,
            old_r@.len() == N && r@.len() == N && old_s@.len() == N && s@.len() == N,
            lnat(a@) == an && lnat(b@) == bn,
            signed_val(lnat(old_s@), old_sn) * an + old_t * bn == lnat(old_r@) as int,
            signed_val(lnat(s@), sn) * an + t * bn == lnat(r@) as int,
            gcd(lnat(old_r@), lnat(r@)) == gcd(an as nat, bn as nat),
            (signed_val(lnat(old_s@), old_sn) >= 0 && signed_val(lnat(s@), sn) <= 0)
                || (signed_val(lnat(old_s@), old_sn) <= 0 && signed_val(lnat(s@), sn) >= 0),
            lnat(s@) as int * lnat(old_r@) as int + lnat(old_s@) as int * lnat(r@) as int == bn,
        decreases lnat(r@),
    {
        let ghost or0 = lnat(old_r@) as int;
        let ghost r0 = lnat(r@) as int;
        let ghost os0 = lnat(old_s@) as int;
        let ghost s0 = lnat(s@) as int;
        let ghost sv_os = signed_val(lnat(old_s@), old_sn);
        let ghost sv_s = signed_val(lnat(s@), sn);
        let (q, rem) = div_rem_limbs(&old_r, &r);
        let ghost q0 = lnat(q@) as int;
        proof {
            lemma_fundamental_div_mod(or0, r0);
            lemma_mod_division_less_than_divisor(or0, r0);
            lemma_lnat_bound(b@);
            // q * |s| fits: q*|s|*r <= |s|*old_r <= bn
            assert(s0 * or0 <= bn);
            assert(q0 * s0 * r0 <= s0 * or0) by (nonlinear_arith)
                requires
                    q0 * r0 <= or0,
                    s0 >= 0,
                    r0 >= 1,
                    q0 >= 0,
            ;
            assert(q0 * s0 <= bn) by (nonlinear_arith)
                requires
                    q0 * s0 * r0 <= bn,
                    r0 >= 1,
                    q0 * s0 >= 0,
            ;
            assert(lnat(q@) * lnat(s@) < pow2((64 * N) as nat));
        }
        let prod = mul_exact_limbs(&q, &s);
        let ghost p0 = lnat(prod@) as int;
        // the new coefficient is old_s - q * s in signed value
        let mut new_s: [u64; N] = from_u64_limbs(0);
        let mut new_sn: bool = false;
        if old_sn == sn {
            if cmp_limbs(&old_s, &prod) >= 0 {
                let (d, _bw) = sub_limbs(&old_s, &prod);
                new_s = d;
                new_sn = old_sn;
            } else {
                let (d, _bw) = sub_limbs(&prod, &old_s);
                new_s = d;
                new_sn = !old_sn;
            }
        } else {
            proof {
                // opposite sign flags: magnitudes add; the sum is bounded by bn
                assert((os0 + q0 * s0) * r0 <= bn) by (nonlinear_arith)
                    requires
                        q0 * r0 <= or0,
                        s0 * or0 + os0 * r0 == bn,
                        s0 >= 0 && os0 >= 0 && r0 >= 1 && q0 >= 0,
                ;
                assert(os0 + q0 * s0 <= bn) by (nonlinear_arith)
                    requires
                        (os0 + q0 * s0) * r0 <= bn,
                        r0 >= 1,
                        os0 + q0 * s0 >= 0,
                ;
                lemma_lnat_bound(b@);
            }
            let (d, c) = add_limbs(&old_s, &prod);
            proof {
                assert(!c);
            }
            new_s = d;
            new_sn = old_sn;
        }
        let ghost ns0 = lnat(new_s@) as int;
        let ghost sv_ns = signed_val(lnat(new_s@), new_sn);
        let ghost new_t: int = old_t - q0 * t;
        proof {
            // signed value of the new coefficient
            assert(sv_ns == sv_os - q0 * sv_s) by (nonlinear_arith)
                requires
                    p0 == q0 * s0,
                    q0 >= 0,
                    (old_sn == sn && os0 >= p0 && ns0 == os0 - p0 && new_sn == old_sn
                        && sv_ns == signed_val(ns0 as nat, new_sn))
                    || (old_sn == sn && os0 < p0 && ns0 == p0 - os0 && new_sn == !old_sn
                        && sv_ns == signed_val(ns0 as nat, new_sn))
                    || (old_sn != sn && ns0 == os0 + p0 && new_sn == old_sn
                        && sv_ns == signed_val(ns0 as nat, new_sn)),
                    sv_os == signed_val(os0 as nat, old_sn),
                    sv_s == signed_val(s0 as nat, sn),
                    os0 >= 0 && s0 >= 0 && ns0 >= 0,
            ;
            // magnitudes: |new_s| == |old_s| + q * |s| under opposite signs
            assert(ns0 == os0 + q0 * s0) by (nonlinear_arith)
                requires
                    sv_ns == sv_os - q0 * sv_s,
                    (sv_os >= 0 && sv_s <= 0) || (sv_os <= 0 && sv_s >= 0),
                    sv_ns == signed_val(ns0 as nat, new_sn),
                    sv_os == signed_val(os0 as nat, old_sn),
                    sv_s == signed_val(s0 as nat, sn),
                    os0 >= 0 && s0 >= 0 && ns0 >= 0 && q0 >= 0,
            ;
            // Bezout relation for the new pair
            assert(sv_ns * an + new_t * bn == or0 - q0 * r0) by (nonlinear_arith)
                requires
                    sv_ns == sv_os - q0 * sv_s,
                    new_t == old_t - q0 * t,
                    sv_os * an + old_t * bn == or0,
                    sv_s * an + t * bn == r0,
            ;
            assert(lnat(rem@) as int == or0 - q0 * r0);
            // gcd is preserved: gcd(old_r, r) == gcd(r, old_r % r)
            assert(gcd(or0 as nat, r0 as nat) == gcd(r0 as nat, lnat(rem@))) by {
                assert(r0 != 0);
            }
            // the weight identity moves to the new pair
            assert(ns0 * r0 + s0 * lnat(rem@) as int == bn) by (nonlinear_arith)
                requires
                    ns0 == os0 + q0 * s0,
                    lnat(rem@) as int == or0 - q0 * r0,
                    s0 * or0 + os0 * r0 == bn,
            ;
            // sign alternation for the new pair
            assert((sv_s >= 0 && sv_ns <= 0) || (sv_s <= 0 && sv_ns >= 0)) by (nonlinear_arith)
                requires
                    sv_ns == sv_os - q0 * sv_s,
                    (sv_os >= 0 && sv_s <= 0) || (sv_os <= 0 && sv_s >= 0),
                    q0 >= 0,
            ;
        }
        old_r = r;
        r = rem;
        old_s = s;
        s = new_s;
        old_sn = sn;
        sn = new_sn;
        proof {
            old_t = t;
            t = new_t;
        }
    }
    proof {
        assert(lnat(r@) == 0);
        assert(gcd(lnat(old_r@), 0) == lnat(old_r@));
    }
    (old_r, old_s, old_sn, Ghost(old_t))
}

/// Modular inverse: `Some(x)` with `a * x == 1 (mod m)` exactly when
/// `gcd(a, m) == 1`, and `None` otherwise.
pub fn inv_mod_limbs<const N: usize>(a: &[u64; N], m: &[u64; N]) -> (res: Option<[u64; N]>)
    requires
        N >= 1,
        64 * N <= usize::MAX,
        lnat(m@) >= 1,
    ensures
        res is Some <==> gcd(lnat(a@), lnat(m@)) == 1,
        match res {
            Some(x) => lnat(x@) <= lnat(m@)
                && (lnat(m@) >= 2 ==> lnat(x@) < lnat(m@))
                && (lnat(m@) == 1 ==> lnat(x@) == 0)
                && (lnat(a@) * lnat(x@)) % lnat(m@) == 1nat % lnat(m@),
            None => true,
        },
{
    let ghost an = lnat(a@) as int;
    let ghost mn = lnat(m@) as int;
    let one_chk: [u64; N] = from_u64_limbs(1);
    if cmp_limbs(m, &one_chk) == 0 {
        // everything is its own inverse modulo one, and zero is the
        // canonical representative
        proof {
            lemma_fundamental_div_mod(an, 1);
            assert(lnat(a@) % 1nat == 0);
            assert(gcd(lnat(a@), 1nat) == gcd(1nat, lnat(a@) % 1nat));
            assert(gcd(1nat, 0nat) == 1);
            assert(lnat(a@) as int * 0 == 0) by (nonlinear_arith);
            lemma_mod_division_less_than_divisor(1, 1);
            lemma_mod_division_less_than_divisor(0, 1);
        }
        let z: [u64; N] = from_u64_limbs(0);
        return Some(z);
    }
    let (g, x, xn, tg) = egcd_limbs(a, m);
    let one: [u64; N] = from_u64_limbs(1);
    if cmp_limbs(&g, &one) != 0 {
        return None;
    }
    let ghost tt = tg@;
    let ghost x0 = lnat(x@) as int;
    let (_q, xr) = div_rem_limbs(&x, m);
    let ghost xm = lnat(xr@) as int;
    proof {
        lemma_fundamental_div_mod(x0, mn);
        lemma_mod_division_less_than_divisor(x0, mn);
    }
    let r: [u64; N];
    if xn {
        let (d, _bw) = sub_limbs(m, &xr);
        r = d;
        proof {
            assert(lnat(r@) as int == mn - xm);
            // a*x + 1 == tt*m, so a*(m - x%m) == m*(a - tt + a*(x/m)) + 1
            let k = x0 / mn;
            assert(an * (mn - xm) == mn * (an - tt + an * k) + 1) by (nonlinear_arith)
                requires
                    -x0 * an + tt * mn == 1,
                    xm == x0 - mn * k,
            ;
            lemma_mod_multiples_vanish(an - tt + an * k, 1, mn);
            assert((an * lnat(r@) as int) % mn == 1int % mn);
            // the result is below the modulus whenever the modulus exceeds one
            if mn >= 2 && lnat(r@) as int == mn {
                assert(xm == 0);
                assert(mn * (an - (an - tt + an * k)) == 1) by (nonlinear_arith)
                    requires
                        an * mn == mn * (an - tt + an * k) + 1,
                ;
                assert(false) by (nonlinear_arith)
                    requires
                        mn * (an - (an - tt + an * k)) == 1,
                        mn >= 2,
                ;
            }
        }
    } else {
        r = xr;
        proof {
            // a*x == 1 - tt*m, so a*(x%m) == m*(-tt - a*(x/m)) + 1
            let k = x0 / mn;
            assert(an * xm == mn * (0 - tt - an * k) + 1) by (nonlinear_arith)
                requires
                    x0 * an + tt * mn == 1,
                    xm == x0 - mn * k,
            ;
            lemma_mod_multiples_vanish(0 - tt - an * k, 1, mn);
            assert((an * lnat(r@) as int) % mn == 1int % mn);
        }
    }
    Some(r)
}

} // verus!
