//! Montgomery-domain arithmetic at the limb level: the negated word
//! inverse of the modulus, R^2 mod n, and CIOS Montgomery multiplication.

use vstd::prelude::*;

verus! {

use vstd::arithmetic::power2::{pow2, lemma_pow2_adds, lemma_pow2_pos, lemma2_to64};
use vstd::arithmetic::div_mod::{
    lemma_fundamental_div_mod, lemma_fundamental_div_mod_converse,
    lemma_mod_division_less_than_divisor, lemma_small_mod,
    lemma_mul_mod_noop_right, lemma_mul_mod_noop_left, lemma_mul_mod_noop_general,
    lemma_add_mod_noop_right, lemma_mod_multiples_vanish, lemma_mod_equivalence,
};
use crate::limbs::{
    lnat, split_u128, lemma_lnat_bound, lemma_lnat_parity, add_limbs, sub_limbs, cmp_limbs,
    from_u64_limbs,
};

/// The low word of a 64x64 product.
fn mul_low(a: u64, b: u64) -> (r: u64)
    ensures
        r as int == ((a as int) * (b as int)) % pow2(64) as int,
{
    proof {
        lemma2_to64();
        assert((a as int) * (b as int) < 0x1_0000_0000_0000_0000_0000_0000_0000_0000)
            by (nonlinear_arith)
            requires
                0 <= a as int <= 0xFFFF_FFFF_FFFF_FFFFu64,
                0 <= b as int <= 0xFFFF_FFFF_FFFF_FFFFu64,
        ;
    }
    let (lo, _hi) = split_u128(a as u128 * b as u128);
    lo
}

/// The difference `a - b` reduced into one word, wrapping modulo 2^64.
fn sub_word(a: u64, b: u64) -> (r: u64)
    ensures
        r as int == ((a as int) - (b as int)) % pow2(64) as int,
{
    proof {
        lemma2_to64();
    }
    if a >= b {
        proof {
            lemma_small_mod((a - b) as nat, pow2(64));
        }
        a - b
    } else {
        let (lo, _hi) = split_u128(0x1_0000_0000_0000_0000u128 + a as u128 - b as u128);
        proof {
            let bb = pow2(64) as int;
            let v = bb + a as int - b as int;
            lemma_small_mod(v as nat, pow2(64));
            lemma_mod_multiples_vanish(1, a as int - b as int, bb);
        }
        lo
    }
}

/// One Newton step doubles the number of correct low bits of the inverse.
proof fn lemma_newton_step(n0: int, inv: int, inv2: int, e: nat)
    requires
        1 <= e <= 32,
        0 <= n0 < pow2(64),
        0 <= inv < pow2(64),
        (n0 * inv - 1) % pow2(e) as int == 0,
        inv2 == (inv * ((2 - (n0 * inv) % pow2(64) as int) % pow2(64) as int))
            % pow2(64) as int,
    ensures
        (n0 * inv2 - 1) % pow2((2 * e) as nat) as int == 0,
{
    let bb = pow2(64) as int;
    let pe = pow2(e) as int;
    let p2e = pow2((2 * e) as nat) as int;
    lemma_pow2_pos(64);
    lemma_pow2_pos(e);
    lemma_pow2_pos((2 * e) as nat);
    lemma_pow2_pos((64 - 2 * e) as nat);
    lemma_pow2_adds(e, e);
    lemma_pow2_adds((2 * e) as nat, (64 - 2 * e) as nat);
    assert(bb == p2e * pow2((64 - 2 * e) as nat));
    // inv2 == inv * (2 - n0*inv)  (mod 2^64)
    let w = (2 - (n0 * inv) % bb) % bb;
    lemma_mod_equivalence(n0 * inv, (n0 * inv) % bb, bb);
    lemma_mod_division_less_than_divisor(n0 * inv, bb);
    lemma_mod_equivalence(2 - (n0 * inv) % bb, w, bb);
    lemma_mod_division_less_than_divisor(2 - (n0 * inv) % bb, bb);
    // w == 2 - n0*inv (mod 2^64): both differ by a multiple of 2^64
    lemma_fundamental_div_mod(n0 * inv, bb);
    assert(n0 * inv == bb * ((n0 * inv) / bb) + (n0 * inv) % bb);
    let k1 = (n0 * inv) / bb;
    // w == (2 - n0*inv + bb*k1) % bb
    assert(w == (2 - n0 * inv + bb * k1) % bb) by {
        assert(2 - (n0 * inv) % bb == 2 - n0 * inv + bb * k1);
    }
    lemma_small_mod(w as nat, pow2(64));
    lemma_mod_equivalence(2 - n0 * inv + bb * k1, w, bb);
    // so w = 2 - n0*inv + bb*k for some k
    let k2 = (2 - n0 * inv + bb * k1 - w) / bb;
    assert((2 - n0 * inv + bb * k1 - w) % bb == 0);
    lemma_fundamental_div_mod(2 - n0 * inv + bb * k1 - w, bb);
    assert(bb * k1 - bb * k2 == bb * (k1 - k2)) by (nonlinear_arith);
    assert(w == 2 - n0 * inv + bb * (k1 - k2));
    // inv2 == inv*w - bb*k3
    lemma_small_mod(inv2 as nat, pow2(64));
    lemma_fundamental_div_mod(inv * w, bb);
    let k3 = (inv * w) / bb;
    assert(inv2 == inv * w - bb * k3);
    // n0*inv2 - 1 == -(n0*inv - 1)^2 + bb*(...)
    let u = n0 * inv;
    let s = u - 1;
    let kk = k1 - k2;
    assert(inv * w == inv * (2 - u) + bb * (inv * kk)) by (nonlinear_arith)
        requires
            w == 2 - u + bb * kk,
    ;
    assert(n0 * inv2 == n0 * (inv * (2 - u)) + bb * (n0 * (inv * kk)) - bb * (n0 * k3))
        by (nonlinear_arith)
        requires
            inv2 == inv * w - bb * k3,
            inv * w == inv * (2 - u) + bb * (inv * kk),
    ;
    assert(n0 * (inv * (2 - u)) == u * (2 - u)) by (nonlinear_arith)
        requires
            u == n0 * inv,
    ;
    assert(u * (2 - u) - 1 == 0 - (s * s)) by (nonlinear_arith)
        requires
            s == u - 1,
    ;
    // s is a multiple of 2^e, so s*s is a multiple of 2^(2e)
    let dd = s / pe;
    lemma_fundamental_div_mod(s, pe);
    assert(s == pe * dd);
    assert(s * s == p2e * (dd * dd)) by (nonlinear_arith)
        requires
            s == pe * dd,
            p2e == pe * pe,
    ;
    // and bb is a multiple of 2^(2e)
    let gap = pow2((64 - 2 * e) as nat) as int;
    let xx = n0 * (inv * kk);
    let yy = n0 * k3;
    assert(n0 * inv2 - 1 == 0 - (s * s) + bb * xx - bb * yy);
    assert(0 - (s * s) + bb * xx - bb * yy == p2e * (0 - dd * dd + gap * xx - gap * yy))
        by (nonlinear_arith)
        requires
            s * s == p2e * (dd * dd),
            bb == p2e * gap,
    ;
    lemma_mod_multiples_vanish(0 - dd * dd + gap * xx - gap * yy, 0, p2e);
}

/// The negated inverse of an odd word modulo 2^64, by Newton iteration:
/// six doubling steps reach all 64 bits.
pub fn compute_neg_inv_word(n0: u64) -> (r: u64)
    requires
        n0 % 2 == 1,
    ensures
        ((n0 as int) * (r as int) + 1) % pow2(64) as int == 0,
{
    let mut inv: u64 = 1;
    let ghost mut e: nat = 1;
    proof {
        lemma2_to64();
        assert((n0 as int * 1 - 1) % pow2(1) as int == 0) by {
            assert(pow2(1) == 2);
            lemma_fundamental_div_mod(n0 as int, 2);
            assert(n0 as int - 1 == 2 * (n0 as int / 2));
            lemma_mod_multiples_vanish(n0 as int / 2, 0, 2);
        }
    }
    for it in 0..6
        invariant
            e == pow2(it as nat),
            e <= 64,
            ((n0 as int) * (inv as int) - 1) % pow2(e) as int == 0,
    {
        let nm = mul_low(n0, inv);
        let tm = sub_word(2, nm);
        let inv_next = mul_low(inv, tm);
        proof {
            lemma2_to64();
            assert(e <= 32) by {
                if it < 5 {
                    vstd::arithmetic::power2::lemma_pow2_strictly_increases(it as nat, 5);
                }
                assert(pow2(5) == 32);
            }
            lemma_newton_step(n0 as int, inv as int, inv_next as int, e);
            lemma_pow2_adds(1, it as nat);
            assert(pow2((it + 1) as nat) == 2 * pow2(it as nat)) by {
                assert(pow2(1) == 2);
            }
            e = 2 * e;
        }
        inv = inv_next;
    }
    proof {
        assert(pow2(6) == 64) by { lemma2_to64(); }
        assert(e == 64);
    }
    // r == 2^64 - inv; the inverse of an odd word is never zero
    proof {
        lemma2_to64();
        if inv == 0 {
            assert((n0 as int * 0 - 1) % pow2(64) as int == 0);
            lemma_mod_equivalence(0 - 1, 0, pow2(64) as int);
            assert((0int - 1) % pow2(64) as int == pow2(64) as int - 1) by {
                lemma_mod_multiples_vanish(-1, pow2(64) as int - 1, pow2(64) as int);
                lemma_small_mod((pow2(64) - 1) as nat, pow2(64));
            }
            assert(false);
        }
    }
    let r = ((0x1_0000_0000_0000_0000u128 - inv as u128) as u64);
    proof {
        let bb = pow2(64) as int;
        let k = ((n0 as int) * (inv as int) - 1) / bb;
        lemma_fundamental_div_mod((n0 as int) * (inv as int) - 1, bb);
        assert((n0 as int) * (inv as int) - 1 == bb * k);
        assert((n0 as int) * (r as int) + 1 == bb * (n0 as int - k)) by (nonlinear_arith)
            requires
                r as int == bb - inv as int,
                (n0 as int) * (inv as int) - 1 == bb * k,
        ;
        lemma_mod_multiples_vanish(n0 as int - k, 0, bb);
    }
    r
}

/// `2^(128*N) mod n`, the Montgomery constant R^2, by repeated doubling.
pub fn compute_r2_limbs<const N: usize>(n: &[u64; N]) -> (r: [u64; N])
    requires
        N >= 1,
        128 * N <= usize::MAX,
        lnat(n@) >= 2,
    ensures
        lnat(r@) == pow2((128 * N) as nat) % lnat(n@),
{
    let ghost nn = lnat(n@) as int;
    let mut r: [u64; N] = from_u64_limbs(1);
    proof {
        lemma_small_mod(1, nn as nat);
        assert(pow2(0) == 1) by { lemma2_to64(); }
        lemma_lnat_bound(n@);
    }
    let total: usize = 128 * N;
    for i in 0..total
        invariant
            total == 128 * N,
            lnat(n@) == nn && nn >= 2,
            r@.len() == N,
            lnat(r@) as int == pow2(i as nat) as int % nn,
        decreases total - i,
    {
        let ghost r0 = lnat(r@) as int;
        let ghost v = 2 * r0;
        let (rr, c) = add_limbs(&r, &r);
        proof {
            lemma_lnat_bound(n@);
            lemma_lnat_bound(rr@);
            lemma_mod_division_less_than_divisor(pow2(i as nat) as int, nn);
        }
        let reduce = c || cmp_limbs(&rr, n) >= 0;
        if reduce {
            let (rs, _bw) = sub_limbs(&rr, n);
            proof {
                let rwide = pow2((64 * N) as nat) as int;
                if c {
                    assert(lnat(rr@) as int == v - rwide);
                    assert(v >= rwide);
                }
                assert(v >= nn);
                lemma_lnat_bound(rs@);
                assert(lnat(rs@) as int == v - nn);
                lemma_fundamental_div_mod_converse(v, nn, 1, v - nn);
            }
            r = rs;
        } else {
            proof {
                assert(lnat(rr@) as int == v);
                lemma_small_mod(v as nat, nn as nat);
            }
            r = rr;
        }
        proof {
            // 2 * (2^i % n) % n == 2^(i+1) % n
            lemma_mul_mod_noop_right(2, pow2(i as nat) as int, nn);
            lemma_pow2_adds(1, i as nat);
            assert(pow2(1) == 2) by { lemma2_to64(); }
            assert(lnat(r@) as int == (2 * r0) % nn);
            assert(pow2((i + 1) as nat) as int == 2 * pow2(i as nat));
        }
    }
    r
}

/// The reduction digit kills the low word: with `n_inv` the negated word
/// inverse of `n0`, the word `m = t0 * n_inv` makes `t0 + m * n0` divisible
/// by 2^64.
proof fn lemma_mont_digit(t0: int, ninv: int, n0: int)
    requires
        0 <= t0 < pow2(64),
        0 <= ninv < pow2(64),
        0 <= n0 < pow2(64),
        (n0 * ninv + 1) % pow2(64) as int == 0,
    ensures
        (t0 + ((t0 * ninv) % pow2(64) as int) * n0) % pow2(64) as int == 0,
{
    let bb = pow2(64) as int;
    lemma_pow2_pos(64);
    let m = (t0 * ninv) % bb;
    lemma_mul_mod_noop_left(t0 * ninv, n0, bb);
    assert((m * n0) % bb == ((t0 * ninv) * n0) % bb);
    lemma_add_mod_noop_right(t0, m * n0, bb);
    lemma_add_mod_noop_right(t0, (t0 * ninv) * n0, bb);
    assert((t0 + m * n0) % bb == (t0 + (t0 * ninv) * n0) % bb) by {
        assert((t0 + (m * n0) % bb) % bb == (t0 + m * n0) % bb);
        assert((t0 + ((t0 * ninv) * n0) % bb) % bb == (t0 + (t0 * ninv) * n0) % bb);
    }
    let k = (n0 * ninv + 1) / bb;
    lemma_fundamental_div_mod(n0 * ninv + 1, bb);
    assert(n0 * ninv + 1 == bb * k);
    assert(t0 + (t0 * ninv) * n0 == bb * (t0 * k)) by (nonlinear_arith)
        requires
            n0 * ninv + 1 == bb * k,
    ;
    lemma_mod_multiples_vanish(t0 * k, 0, bb);
}

/// CIOS Montgomery multiplication over `N` limbs: the result `r` satisfies
/// `r * 2^(64*N) == a * b (mod n)` with `r < n`, for reduced inputs and an
/// odd modulus whose negated word inverse is `n_inv`.
#[verifier::rlimit(100)]
pub fn mont_mul_limbs<const N: usize>(a: &[u64; N], b: &[u64; N], n: &[u64; N], n_inv: u64)
    -> (r: [u64; N])
    requires
        N >= 1,
        lnat(n@) >= 2,
        lnat(a@) < lnat(n@),
        lnat(b@) < lnat(n@),
        ((n@[0] as int) * (n_inv as int) + 1) % pow2(64) as int == 0,
    ensures
        lnat(r@) < lnat(n@),
        (lnat(r@) * pow2((64 * N) as nat)) % lnat(n@)
            == (lnat(a@) * lnat(b@)) % lnat(n@),
{
    let ghost nn = lnat(n@) as int;
    let ghost an = lnat(a@) as int;
    let ghost bn = lnat(b@) as int;
    let ghost bb = pow2(64) as int;
    let ghost rw = pow2((64 * N) as nat) as int;
    let mut tl: [u64; N] = from_u64_limbs(0);
    let mut tn: u64 = 0;
    let mut tn1: u64 = 0;
    proof {
        lemma2_to64();
        lemma_pow2_pos((64 * N) as nat);
        lemma_lnat_bound(a@);
        lemma_lnat_bound(b@);
        lemma_lnat_bound(n@);
        assert(b@.take(0) =~= Seq::<u64>::empty());
        assert(lnat(Seq::<u64>::empty()) == 0);
        assert(0int * pow2(0) as int == 0);
        assert(an * 0 == 0) by (nonlinear_arith);
        assert(pow2(0) == 1);
        assert((0int * 1) % nn == 0int % nn);
    }
    for i in 0..N
        invariant
            N >= 1,
            nn == lnat(n@) && an == lnat(a@) && bn == lnat(b@),
            bb == pow2(64) && rw == pow2((64 * N) as nat),
            nn >= 2 && an < nn && bn < nn && nn < rw,
            ((n@[0] as int) * (n_inv as int) + 1) % bb == 0,
            tl@.len() == N,
            tn1 == 0,
            lnat(tl@) as int + (tn as int) * rw < 2 * nn,
            ((lnat(tl@) as int + (tn as int) * rw) * pow2((64 * i) as nat) as int) % nn
                == (an * lnat(b@.take(i as int)) as int) % nn,
    {
        let ghost tv0 = lnat(tl@) as int + (tn as int) * rw;
        let ghost tl0 = lnat(tl@) as int;
        let ghost tn0 = tn as int;
        let bi = b[i];
        // phase 1: t += a * b_i
        let mut c: u64 = 0;
        proof {
            assert(a@.take(0) =~= Seq::<u64>::empty());
            assert(lnat(Seq::<u64>::empty()) == 0);
            assert(0int * (bi as int) == 0) by (nonlinear_arith);
        }
        for j in 0..N
            invariant
                N >= 1,
                an == lnat(a@) && bb == pow2(64),
                tl@.len() == N,
                lnat(tl@) as int + (c as int) * pow2((64 * j) as nat) as int
                    == tl0 + lnat(a@.take(j as int)) as int * (bi as int),
        {
            proof {
                lemma2_to64();
                vstd::arithmetic::mul::lemma_mul_upper_bound(
                    a@[j as int] as int, 0xFFFF_FFFF_FFFF_FFFFu64 as int,
                    bi as int, 0xFFFF_FFFF_FFFF_FFFFu64 as int);
            }
            let ghost tl_old = tl@;
            let ghost c0 = c as int;
            let uv: u128 = tl[j] as u128 + a[j] as u128 * bi as u128 + c as u128;
            let (lo, hi) = split_u128(uv);
            let ghost tj = tl@[j as int] as int;
            tl[j] = lo;
            c = hi;
            proof {
                let jj = j as int;
                let p = pow2((64 * jj) as nat) as int;
                lemma2_to64();
                crate::limbs::lemma_lnat_update(tl_old, jj, lo);
                crate::limbs::lemma_lnat_take_succ(a@, jj);
                lemma_pow2_adds((64 * jj) as nat, 64);
                assert((64 * jj + 64) as nat == (64 * (jj + 1)) as nat);
                let aj = a@[jj] as int;
                assert(lo as int + bb * (hi as int) == tj + aj * (bi as int) + c0);
                assert((lo as int - tj) * p + (hi as int) * (p * bb) - c0 * p
                    == (aj * (bi as int)) * p) by (nonlinear_arith)
                    requires
                        lo as int + bb * (hi as int) == tj + aj * (bi as int) + c0,
                ;
                assert(lnat(a@.take(jj + 1)) as int * (bi as int)
                    == lnat(a@.take(jj)) as int * (bi as int) + (aj * (bi as int)) * p)
                    by (nonlinear_arith)
                    requires
                        lnat(a@.take(jj + 1)) as int == lnat(a@.take(jj)) as int + aj * p,
                ;
                assert(pow2((64 * (jj + 1)) as nat) as int == p * bb);
            }
        }
        proof {
            assert(a@.take(N as int) =~= a@);
        }
        let uvt: u128 = tn as u128 + c as u128;
        let (lo1, hi1) = split_u128(uvt);
        let ghost tl1 = lnat(tl@) as int;
        tn = lo1;
        tn1 = hi1;
        let ghost tv1 = tl1 + (tn as int) * rw + (tn1 as int) * (rw * bb);
        proof {
            lemma2_to64();
            assert(rw >= 3);
            // tv1 == tv0 + a * b_i
            assert(lo1 as int + bb * (hi1 as int) == tn0 + c as int);
            assert(tl1 + (lo1 as int) * rw + (hi1 as int) * (rw * bb)
                == tl1 + (c as int) * rw + tn0 * rw) by (nonlinear_arith)
                requires
                    lo1 as int + bb * (hi1 as int) == tn0 + c as int,
            ;
            assert(pow2((64 * (N as int)) as nat) as int == rw);
            assert(tl1 + (c as int) * rw == tl0 + an * (bi as int));
            assert(tv1 == tv0 + an * (bi as int));
            // bounds: tv1 <= (2nn - 1) + (nn - 1)(bb - 1), tn1 <= 1, tn fits
            assert(an * (bi as int) <= (nn - 1) * (bb - 1)) by (nonlinear_arith)
                requires
                    0 <= an <= nn - 1,
                    0 <= bi as int <= bb - 1,
            ;
            assert(tv1 < 2 * (rw * bb)) by (nonlinear_arith)
                requires
                    tv1 <= 2 * nn - 1 + (nn - 1) * (bb - 1),
                    2 <= nn < rw,
                    bb >= 2,
                    rw >= 2,
            ;
            assert((tn as int) * rw >= 0) by (nonlinear_arith)
                requires
                    tn as int >= 0 && rw > 0,
            ;
            assert((tn1 as int) * (rw * bb) <= tv1) by (nonlinear_arith)
                requires
                    tv1 == tl1 + (tn as int) * rw + (tn1 as int) * (rw * bb),
                    tl1 >= 0,
                    (tn as int) * rw >= 0,
            ;
            assert((tn1 as int) <= 1) by (nonlinear_arith)
                requires
                    (tn1 as int) * (rw * bb) <= tv1,
                    tv1 < 2 * (rw * bb),
                    rw * bb > 0,
                    tn1 as int >= 0,
            ;
        }
        // phase 2: one reduction digit
        let m = mul_low(tl[0], n_inv);
        let ghost mm = m as int;
        proof {
            lemma2_to64();
            lemma_mont_digit(tl@[0] as int, n_inv as int, n@[0] as int);
            vstd::arithmetic::mul::lemma_mul_upper_bound(
                mm, 0xFFFF_FFFF_FFFF_FFFFu64 as int,
                n@[0] as int, 0xFFFF_FFFF_FFFF_FFFFu64 as int);
        }
        let uv0: u128 = tl[0] as u128 + m as u128 * n[0] as u128;
        let (lo0, hi0) = split_u128(uv0);
        let mut c2: u64 = hi0;
        proof {
            // the low word vanishes
            assert(lo0 as int == 0) by {
                assert(uv0 as int == tl@[0] as int + mm * (n@[0] as int));
                assert((tl@[0] as int + mm * (n@[0] as int)) % bb == 0);
            }
            assert(n@.take(1).len() == 1 && n@.take(1)[0] == n@[0]);
            assert(n@.take(1).skip(1) =~= Seq::<u64>::empty());
            assert(lnat(Seq::<u64>::empty()) == 0);
            assert(lnat(n@.take(1)) == n@[0] as nat + pow2(64) * 0);
            // entry of the shift loop: j == 1
            assert(lnat(tl@) as int == tl@[0] as int + bb * lnat(tl@.skip(1)) as int);
            assert(tl@.take(0) =~= Seq::<u64>::empty());
            assert(pow2((64 * 1) as nat) == pow2(64));
            assert(bb * (c2 as int) == tl@[0] as int + mm * (n@[0] as int)) by {
                assert(lo0 as int + bb * (hi0 as int) == uv0 as int);
            }
            assert(lnat(tl@.take(0)) == 0);
            assert(mm * lnat(n@.take(1)) as int == mm * (n@[0] as int));
            assert(bb * lnat(tl@.take(0)) as int
                + (c2 as int) * pow2((64 * 1) as nat) as int
                + pow2((64 * 1) as nat) as int * lnat(tl@.skip(1)) as int
                == tl1 + mm * lnat(n@.take(1)) as int);
        }
        let ghost tl1v = tl@;
        for j in 1..N
            invariant
                N >= 1,
                nn == lnat(n@) && bb == pow2(64),
                tl@.len() == N && n@.len() == N,
                tl1 == lnat(tl1v),
                mm == m as int,
                bb * lnat(tl@.take(j - 1)) as int
                    + (c2 as int) * pow2((64 * j) as nat) as int
                    + pow2((64 * j) as nat) as int * lnat(tl@.skip(j as int)) as int
                    == tl1 + mm * lnat(n@.take(j as int)) as int,
        {
            proof {
                lemma2_to64();
                vstd::arithmetic::mul::lemma_mul_upper_bound(
                    mm, 0xFFFF_FFFF_FFFF_FFFFu64 as int,
                    n@[j as int] as int, 0xFFFF_FFFF_FFFF_FFFFu64 as int);
            }
            let ghost tl_old = tl@;
            let ghost c0 = c2 as int;
            let uv: u128 = tl[j] as u128 + m as u128 * n[j] as u128 + c2 as u128;
            let (lo, hi) = split_u128(uv);
            let ghost tj = tl@[j as int] as int;
            tl[j - 1] = lo;
            c2 = hi;
            proof {
                let jj = j as int;
                let pjm1 = pow2((64 * (jj - 1)) as nat) as int;
                let pj = pow2((64 * jj) as nat) as int;
                let pj1 = pow2((64 * (jj + 1)) as nat) as int;
                lemma2_to64();
                lemma_pow2_adds((64 * (jj - 1)) as nat, 64);
                lemma_pow2_adds((64 * jj) as nat, 64);
                assert((64 * (jj - 1) + 64) as nat == (64 * jj) as nat);
                assert((64 * jj + 64) as nat == (64 * (jj + 1)) as nat);
                assert(pj == pjm1 * bb && pj1 == pj * bb);
                let nj = n@[jj] as int;
                assert(lo as int + bb * (hi as int) == tj + mm * nj + c0);
                // prefix: the written word extends the shifted prefix
                assert(tl@.take(jj - 1) =~= tl_old.take(jj - 1));
                crate::limbs::lemma_lnat_take_succ(tl@, jj - 1);
                assert(lnat(tl@.take(jj)) as int
                    == lnat(tl_old.take(jj - 1)) as int + (lo as int) * pjm1);
                // suffix: reading word j splits the old suffix
                assert(tl_old.skip(jj)[0] == tl_old[jj]);
                assert(tl_old.skip(jj).skip(1) =~= tl_old.skip(jj + 1));
                assert(lnat(tl_old.skip(jj)) as int
                    == tj + bb * lnat(tl_old.skip(jj + 1)) as int);
                assert(tl@.skip(jj + 1) =~= tl_old.skip(jj + 1));
                crate::limbs::lemma_lnat_take_succ(n@, jj);
                let ltk = lnat(tl_old.take(jj - 1)) as int;
                let lsk1 = lnat(tl_old.skip(jj + 1)) as int;
                let ntk = lnat(n@.take(jj)) as int;
                let lov = lo as int;
                let hiv = hi as int;
                assert(bb * (ltk + lov * pjm1) == bb * ltk + lov * pj) by (nonlinear_arith)
                    requires
                        pj == pjm1 * bb,
                ;
                assert(hiv * pj1 == (bb * hiv) * pj) by (nonlinear_arith)
                    requires
                        pj1 == pj * bb,
                ;
                assert(pj1 * lsk1 == pj * (bb * lsk1)) by (nonlinear_arith)
                    requires
                        pj1 == pj * bb,
                ;
                assert(lov * pj + (bb * hiv) * pj == tj * pj + (mm * nj) * pj + c0 * pj)
                    by (nonlinear_arith)
                    requires
                        lov + bb * hiv == tj + mm * nj + c0,
                ;
                assert(pj * (tj + bb * lsk1) == tj * pj + pj * (bb * lsk1))
                    by (nonlinear_arith);
                assert(mm * (ntk + nj * pj) == mm * ntk + (mm * nj) * pj)
                    by (nonlinear_arith);
                assert(bb * (ltk + lov * pjm1) + hiv * pj1 + pj1 * lsk1
                    == tl1 + mm * (ntk + nj * pj));
                assert(lnat(n@.take(jj + 1)) as int == ntk + nj * pj);
                assert(pj * lnat(tl_old.skip(jj)) as int
                    == pj * (tj + bb * lsk1)) by (nonlinear_arith)
                    requires
                        lnat(tl_old.skip(jj)) as int == tj + bb * lsk1,
                ;
            }
        }
        // fold the carry words back in
        let uvf: u128 = tn as u128 + c2 as u128;
        let (lof, hif) = split_u128(uvf);
        let ghost tn1v = tn as int;
        let ghost tn1_1 = tn1 as int;
        let ghost tl_end = tl@;
        tl[N - 1] = lof;
        proof {
            assert((hif as int) <= 1) by (nonlinear_arith)
                requires
                    (lof as int) + bb * (hif as int) == tn1v + c2 as int,
                    tn1v < bb && (c2 as int) < bb && bb >= 2,
                    lof as int >= 0 && hif as int >= 0,
            ;
        }
        let tn_new: u64 = tn1 + hif;
        tn = tn_new;
        tn1 = 0;
        proof {
            let pnm1 = pow2((64 * ((N - 1) as int)) as nat) as int;
            lemma2_to64();
            // value of the updated low array
            assert(tl@.take(N - 1 as int) =~= tl_end.take(N - 1 as int));
            crate::limbs::lemma_lnat_take_succ(tl@, N - 1 as int);
            assert(tl@.take(N as int) =~= tl@);
            assert(lnat(tl@) as int
                == lnat(tl_end.take(N - 1 as int)) as int + (lof as int) * pnm1);
            // close the shift loop: the suffix beyond N is empty
            assert(tl_end.skip(N as int) =~= Seq::<u64>::empty());
            assert(lnat(Seq::<u64>::empty()) == 0);
            assert(n@.take(N as int) =~= n@);
            let pn = pow2((64 * N) as nat) as int;
            lemma_pow2_adds((64 * (N - 1) as int) as nat, 64);
            assert((64 * (N - 1) as int + 64) as nat == (64 * N) as nat);
            assert(pn == pnm1 * bb);
            let ltk = lnat(tl_end.take(N - 1 as int)) as int;
            assert(pn * lnat(tl_end.skip(N as int)) as int == pn * 0);
            assert(bb * ltk + (c2 as int) * pn + pn * 0 == tl1 + mm * nn);
            assert(pn * 0 == 0) by (nonlinear_arith);
            assert(bb * ltk + (c2 as int) * pn == tl1 + mm * nn);
            // B * tv2 == tv1 + m * nn
            let tv2 = lnat(tl@) as int + (tn as int) * rw;
            assert(rw == pn);
            assert(bb * tv2 == tv1 + mm * nn) by (nonlinear_arith)
                requires
                    tv2 == ltk + (lof as int) * pnm1 + ((tn1_1 + hif as int)) * pn,
                    bb * ltk + (c2 as int) * pn == tl1 + mm * nn,
                    (lof as int) + bb * (hif as int) == tn1v + c2 as int,
                    pn == pnm1 * bb,
                    tv1 == tl1 + tn1v * pn + tn1_1 * (pn * bb),
            ;
            // bound: tv2 < 2 * nn
            assert(tv2 < 2 * nn) by (nonlinear_arith)
                requires
                    bb * tv2 == tv1 + mm * nn,
                    tv1 <= 2 * nn - 1 + (nn - 1) * (bb - 1),
                    0 <= mm <= bb - 1,
                    bb >= 2 && nn >= 2,
            ;
            // congruence: tv2 * B^(i+1) == an * b.take(i+1)  (mod nn)
            let ii = i as int;
            let pi = pow2((64 * ii) as nat) as int;
            let pi1 = pow2((64 * (ii + 1)) as nat) as int;
            lemma_pow2_adds((64 * ii) as nat, 64);
            assert((64 * ii + 64) as nat == (64 * (ii + 1)) as nat);
            assert(pi1 == pi * bb);
            let tk0 = lnat(b@.take(ii)) as int;
            crate::limbs::lemma_lnat_take_succ(b@, ii);
            let tk1 = lnat(b@.take(ii + 1)) as int;
            assert(tv2 * pi1 == (tv0 + an * (bi as int)) * pi + (mm * pi) * nn)
                by (nonlinear_arith)
                requires
                    bb * tv2 == tv1 + mm * nn,
                    tv1 == tv0 + an * (bi as int),
                    pi1 == pi * bb,
            ;
            lemma_mod_multiples_vanish(mm * pi, (tv0 + an * (bi as int)) * pi, nn);
            assert((tv2 * pi1) % nn == ((tv0 + an * (bi as int)) * pi) % nn);
            assert((tv0 + an * (bi as int)) * pi == tv0 * pi + an * ((bi as int) * pi))
                by (nonlinear_arith);
            lemma_add_mod_noop_right(an * ((bi as int) * pi), tv0 * pi, nn);
            assert((an * ((bi as int) * pi) + (tv0 * pi) % nn) % nn
                == (an * ((bi as int) * pi) + tv0 * pi) % nn);
            lemma_add_mod_noop_right(an * ((bi as int) * pi), an * tk0, nn);
            assert((an * ((bi as int) * pi) + (an * tk0) % nn) % nn
                == (an * ((bi as int) * pi) + an * tk0) % nn);
            assert((tv0 * pi) % nn == (an * tk0) % nn);
            assert(an * ((bi as int) * pi) + an * tk0 == an * tk1) by (nonlinear_arith)
                requires
                    tk1 == tk0 + (bi as int) * pi,
            ;
        }
    }
    // final conditional subtraction
    let ghost tv = lnat(tl@) as int + (tn as int) * rw;
    proof {
        assert(b@.take(N as int) =~= b@);
        assert((tn as int) <= 1) by (nonlinear_arith)
            requires
                lnat(tl@) as int + (tn as int) * rw < 2 * nn,
                nn < rw,
                lnat(tl@) as int >= 0,
                tn as int >= 0,
                rw > 0,
        ;
        lemma_lnat_bound(tl@);
    }
    if tn > 0 || cmp_limbs(&tl, n) >= 0 {
        let (rs, _bw) = sub_limbs(&tl, n);
        proof {
            if tn > 0 {
                assert(tv >= rw);
                assert(lnat(tl@) as int == tv - rw);
                assert(lnat(tl@) < lnat(n@));
                assert(lnat(rs@) as int == tv - nn);
            } else {
                assert(lnat(rs@) as int == tv - nn);
            }
            assert((lnat(rs@) as int) < nn);
            // (tv - nn) * rw differs from tv * rw by a multiple of nn
            assert((tv - nn) * rw + nn * rw == tv * rw) by (nonlinear_arith);
            lemma_mod_multiples_vanish(rw, (tv - nn) * rw, nn);
            assert(nn * rw == rw * nn) by (nonlinear_arith);
            assert(((tv - nn) * rw) % nn == (tv * rw) % nn) by {
                assert((tv - nn) * rw + nn * rw == tv * rw);
            }
            assert((tv * rw) % nn == (an * bn) % nn);
        }
        rs
    } else {
        proof {
            assert(tn == 0);
            assert(lnat(tl@) as int == tv);
            assert((tv * rw) % nn == (an * bn) % nn);
        }
        tl
    }
}

} // verus!
