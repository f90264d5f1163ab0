//! Division of limb values: bit and nibble extraction, remainder by a
//! single word, and full quotient/remainder by binary long division.

use vstd::prelude::*;

verus! {

use vstd::arithmetic::power2::{pow2, lemma_pow2_adds, lemma_pow2_pos, lemma2_to64};
use vstd::arithmetic::div_mod::{
    lemma_fundamental_div_mod, lemma_fundamental_div_mod_converse,
    lemma_div_denominator, lemma_hoist_over_denominator, lemma_mod_multiples_vanish,
    lemma_add_mod_noop_right, lemma_mul_mod_noop_right, lemma_mod_division_less_than_divisor,
    lemma_div_nonincreasing, lemma_basic_div,
};
use vstd::bits::{lemma_u64_shr_is_div, lemma_u64_low_bits_mask_is_mod, lemma_low_bits_mask_values};
use crate::limbs::{
    lnat, lemma_lnat_split, lemma_lnat_bound, lemma_lnat_update, lemma_lnat_parity,
    lemma_lnat_zero, add_limbs, sub_limbs, cmp_limbs, from_u64_limbs,
};

/// A chunk of `c` bits taken at offset `sh` of limb `w` is the same chunk of
/// the whole value at offset `64*w + sh`.
pub proof fn lemma_lnat_chunk(s: Seq<u64>, w: int, sh: nat, c: nat)
    requires
        0 <= w < s.len(),
        1 <= c,
        sh + c <= 64,
    ensures
        (lnat(s) / pow2((64 * w + sh) as nat)) % pow2(c)
            == ((s[w] as nat) / pow2(sh)) % pow2(c),
{
    let pw = pow2((64 * w) as nat) as int;
    let psh = pow2(sh) as int;
    let pc = pow2(c) as int;
    let bb = pow2(64) as int;
    lemma_pow2_pos((64 * w) as nat);
    lemma_pow2_pos(sh);
    lemma_pow2_pos(c);
    lemma_pow2_pos(64);
    lemma_pow2_pos((64 - sh) as nat);
    lemma_pow2_pos((64 - sh - c) as nat);
    // lnat(s) / pow2(64*w) == lnat(s.skip(w))
    lemma_lnat_split(s, w);
    lemma_lnat_bound(s.take(w));
    assert(s.take(w).len() == w);
    let hi = lnat(s.skip(w)) as int;
    let lo = lnat(s.take(w)) as int;
    lemma_fundamental_div_mod_converse(lnat(s) as int, pw, hi, lo);
    assert(lnat(s) as int / pw == hi);
    // lnat(s) / pow2(64*w + sh) == hi / pow2(sh)
    lemma_div_denominator(lnat(s) as int, pw, psh);
    lemma_pow2_adds((64 * w) as nat, sh);
    assert(lnat(s) as int / pow2((64 * w + sh) as nat) as int == hi / psh);
    // hi == s[w] + 2^64 * rest
    let rest = lnat(s.skip(w).skip(1)) as int;
    assert(s.skip(w)[0] == s[w]);
    assert(hi == s[w] + bb * rest);
    // hi / 2^sh == s[w]/2^sh + 2^(64-sh) * rest
    let pms = pow2((64 - sh) as nat) as int;
    lemma_pow2_adds((64 - sh) as nat, sh);
    assert(bb == pms * psh);
    lemma_hoist_over_denominator(s[w] as int, pms * rest, psh as nat);
    assert((pms * rest) * psh == bb * rest) by (nonlinear_arith)
        requires
            bb == pms * psh,
    ;
    assert(hi / psh == s[w] as int / psh + pms * rest);
    // the added term vanishes mod 2^c
    let pgap = pow2((64 - sh - c) as nat) as int;
    lemma_pow2_adds(c, (64 - sh - c) as nat);
    assert(pms == pc * pgap);
    assert(pms * rest == pc * (pgap * rest)) by (nonlinear_arith)
        requires
            pms == pc * pgap,
    ;
    lemma_mod_multiples_vanish(pgap * rest, s[w] as int / psh, pc);
}

/// Bit `j` of an `N`-limb value.
pub fn bit_limbs<const N: usize>(a: &[u64; N], j: usize) -> (r: bool)
    requires
        j < 64 * N,
    ensures
        r <==> (lnat(a@) / pow2(j as nat)) % 2 == 1,
{
    let w = j / 64;
    let sh = j % 64;
    proof {
        lemma_fundamental_div_mod(j as int, 64);
        assert(w < N);
    }
    let b = (a[w] >> (sh as u64)) & 1;
    proof {
        lemma_u64_shr_is_div(a@[w as int], sh as u64);
        lemma_u64_low_bits_mask_is_mod(a@[w as int] >> (sh as u64), 1);
        lemma_low_bits_mask_values();
        assert(pow2(1) == 2) by { lemma2_to64(); }
        lemma_lnat_chunk(a@, w as int, sh as nat, 1);
        assert((64 * w + sh) as nat == j as nat);
    }
    b == 1
}

/// The `idx`-th 4-bit nibble of an `N`-limb value, counting from the least
/// significant end.
pub fn nibble_limbs<const N: usize>(a: &[u64; N], idx: usize) -> (r: u64)
    requires
        idx < 16 * N,
    ensures
        r == (lnat(a@) / pow2((4 * idx) as nat)) % 16,
        r < 16,
{
    let w = idx / 16;
    let sh = 4 * (idx % 16);
    proof {
        lemma_fundamental_div_mod(idx as int, 16);
        assert(w < N);
        assert(sh < 64);
    }
    let b = (a[w] >> (sh as u64)) & 0xF;
    proof {
        lemma_u64_shr_is_div(a@[w as int], sh as u64);
        lemma_u64_low_bits_mask_is_mod(a@[w as int] >> (sh as u64), 4);
        lemma_low_bits_mask_values();
        assert(pow2(4) == 16) by { lemma2_to64(); }
        lemma_lnat_chunk(a@, w as int, sh as nat, 4);
        assert((64 * w + sh) as nat == (4 * idx) as nat);
    }
    b
}

/// Remainder of an `N`-limb value by a single 64-bit word.
pub fn rem_u64_limbs<const N: usize>(a: &[u64; N], d: u64) -> (r: u64)
    requires
        d >= 1,
    ensures
        r == lnat(a@) % (d as nat),
{
    let mut r: u64 = 0;
    let mut k: usize = N;
    proof {
        assert(a@.skip(N as int) =~= Seq::<u64>::empty());
        assert(lnat(Seq::<u64>::empty()) == 0);
    }
    while k > 0
        invariant
            k <= N,
            d >= 1,
            r == lnat(a@.skip(k as int)) % (d as nat),
            r < d,
        decreases k,
    {
        k = k - 1;
        proof {
            lemma2_to64();
            assert((r as u128) * 0x1_0000_0000_0000_0000u128
                <= 0xFFFF_FFFF_FFFF_FFFFu128 * 0x1_0000_0000_0000_0000u128) by (nonlinear_arith)
                requires
                    r <= 0xFFFF_FFFF_FFFF_FFFFu64,
            ;
        }
        let cur: u128 = (r as u128) * 0x1_0000_0000_0000_0000u128 + a[k] as u128;
        let rem: u128 = cur % (d as u128);
        proof {
            let kk = k as int;
            let bb = pow2(64) as int;
            let dd = d as int;
            lemma_mod_division_less_than_divisor(cur as int, dd);
            let x = lnat(a@.skip(kk + 1)) as int;
            assert(a@.skip(kk)[0] == a@[kk]);
            assert(a@.skip(kk).skip(1) =~= a@.skip(kk + 1));
            assert(lnat(a@.skip(kk)) as int == a@[kk] + bb * x);
            lemma_mul_mod_noop_right(bb, x, dd);
            lemma_add_mod_noop_right(a@[kk] as int, bb * (x % dd), dd);
            lemma_add_mod_noop_right(a@[kk] as int, bb * x, dd);
            assert(bb * (x % dd) == (x % dd) * bb) by (nonlinear_arith);
            assert(cur as int == (x % dd) * bb + a@[kk]);
            assert((a@[kk] + bb * (x % dd)) % dd == cur as int % dd);
            assert((a@[kk] + bb * (x % dd)) % dd == (a@[kk] + (bb * (x % dd)) % dd) % dd);
            assert((a@[kk] + (bb * x) % dd) % dd == (a@[kk] + bb * x) % dd);
            assert(cur as int % dd == lnat(a@.skip(kk)) as int % dd);
        }
        r = rem as u64;
    }
    proof {
        assert(a@.skip(0) =~= a@);
    }
    r
}

/// Quotient and remainder of one `N`-limb value by another, by binary long
/// division from the most significant bit down.
pub fn div_rem_limbs<const N: usize>(a: &[u64; N], d: &[u64; N]) -> (res: ([u64; N], [u64; N]))
    requires
        N >= 1,
        64 * N <= usize::MAX,
        lnat(d@) >= 1,
    ensures
        lnat(res.0@) == lnat(a@) / lnat(d@),
        lnat(res.1@) == lnat(a@) % lnat(d@),
{
    let mut q: [u64; N] = from_u64_limbs(0);
    let mut r: [u64; N] = from_u64_limbs(0);
    let mut k: usize = 64 * N;
    let ghost an = lnat(a@) as int;
    let ghost dn = lnat(d@) as int;
    let ghost rwide = pow2((64 * N) as nat) as int;
    proof {
        lemma_lnat_bound(a@);
        lemma_lnat_bound(d@);
        lemma_basic_div(an, rwide);
        lemma_pow2_pos((64 * N) as nat);
        assert(0int % dn == 0 && 0int / dn == 0) by {
            lemma_fundamental_div_mod_converse(0, dn, 0, 0);
        }
    }
    while k > 0
        invariant
            k <= 64 * N,
            lnat(d@) == dn && lnat(a@) == an,
            dn >= 1 && dn < rwide,
            rwide == pow2((64 * N) as nat),
            q@.len() == N && r@.len() == N,
            lnat(q@) as int == (an / pow2(k as nat) as int) / dn,
            lnat(r@) as int == (an / pow2(k as nat) as int) % dn,
            lnat(r@) < dn,
        decreases k,
    {
        k = k - 1;
        let ghost h_prev = an / pow2((k + 1) as nat) as int;
        let ghost h = an / pow2(k as nat) as int;
        let ghost q_old = lnat(q@) as int;
        let ghost r_old = lnat(r@) as int;
        let bit = bit_limbs(a, k);
        let ghost bitv: int = if bit { 1int } else { 0int };
        proof {
            // h == 2 * h_prev + bitv
            lemma_pow2_adds(k as nat, 1);
            assert(pow2(1) == 2) by { lemma2_to64(); }
            lemma_pow2_pos(k as nat);
            lemma_div_denominator(an, pow2(k as nat) as int, 2);
            lemma_fundamental_div_mod(h, 2);
            lemma_mod_division_less_than_divisor(h, 2);
            assert(h_prev == h / 2);
            assert(bitv == h % 2);
            assert(h == 2 * h_prev + bitv);
            // h_prev == q_old * dn + r_old
            lemma_fundamental_div_mod(h_prev, dn);
        }
        // candidate remainder v == 2 * r_old + bit
        let ghost v = 2 * r_old + bitv;
        let (mut rr, c) = add_limbs(&r, &r);
        if bit {
            proof {
                lemma_lnat_parity(rr@);
                let half = pow2((64 * N - 1) as nat) as int;
                assert(rwide == 2 * half) by {
                    lemma_pow2_adds(1, (64 * N - 1) as nat);
                    assert(pow2(1) == 2) by { lemma2_to64(); }
                }
                if c {
                    assert(lnat(rr@) as int == 2 * (r_old - half));
                    lemma_mod_multiples_vanish(r_old - half, 0, 2);
                } else {
                    assert(lnat(rr@) as int == 2 * r_old);
                    lemma_mod_multiples_vanish(r_old, 0, 2);
                }
                assert(lnat(rr@) as int % 2 == 0);
                assert(rr@[0] % 2 == 0);
                assert(rr@[0] < 0xFFFF_FFFF_FFFF_FFFFu64);
                lemma_lnat_update(rr@, 0, (rr@[0] + 1) as u64);
                assert(pow2(0) == 1) by { lemma2_to64(); }
                assert((rr@[0] as int + 1 - rr@[0] as int) * 1 == 1) by (nonlinear_arith);
            }
            rr[0] = rr[0] + 1;
        }
        proof {
            assert(lnat(rr@) as int + (if c { rwide } else { 0int }) == v);
            lemma_lnat_bound(rr@);
        }
        let take_bit = c || cmp_limbs(&rr, d) >= 0;
        let ghost qbit: int = if take_bit { 1int } else { 0int };
        if take_bit {
            proof {
                if c {
                    assert(lnat(rr@) as int == v - rwide);
                    assert(v >= rwide);
                    assert(v >= dn);
                } else {
                    assert(lnat(rr@) as int == v);
                    assert(v >= dn);
                }
            }
            let (rs, _borrow) = sub_limbs(&rr, d);
            proof {
                // in either carry case the wrapped subtraction lands on v - dn
                lemma_lnat_bound(rs@);
                if c {
                    assert(v < 2 * dn);
                    assert(lnat(rr@) as int == v - rwide);
                    assert((lnat(rr@) as int) < dn);
                    assert(lnat(rs@) as int == v - dn);
                } else {
                    assert(lnat(rs@) as int == v - dn);
                }
            }
            r = rs;
        } else {
            r = rr;
            proof {
                assert(v < dn);
            }
        }
        proof {
            assert(lnat(r@) as int == v - qbit * dn);
            assert(0 <= (lnat(r@) as int) && (lnat(r@) as int) < dn);
            assert(h == (2 * q_old + qbit) * dn + lnat(r@) as int) by (nonlinear_arith)
                requires
                    h == 2 * h_prev + bitv,
                    h_prev == q_old * dn + r_old,
                    v == 2 * r_old + bitv,
                    lnat(r@) as int == v - qbit * dn,
            ;
            lemma_fundamental_div_mod_converse(h, dn, 2 * q_old + qbit, lnat(r@) as int);
            // the quotient still fits in N limbs
            lemma_div_nonincreasing(an, pow2(k as nat) as int);
            lemma_lnat_bound(a@);
            assert(h < rwide);
            assert(2 * q_old + qbit <= h) by (nonlinear_arith)
                requires
                    h == (2 * q_old + qbit) * dn + lnat(r@) as int,
                    dn >= 1,
                    lnat(r@) as int >= 0,
                    2 * q_old + qbit >= 0,
            ;
        }
        let (mut qq, qc) = add_limbs(&q, &q);
        proof {
            assert(lnat(qq@) as int + (if qc { rwide } else { 0int }) == 2 * q_old);
            assert(!qc);
        }
        if take_bit {
            proof {
                lemma_lnat_parity(qq@);
                lemma_mod_multiples_vanish(q_old, 0, 2);
                assert(lnat(qq@) as int % 2 == 0);
                assert(qq@[0] % 2 == 0);
                assert(qq@[0] < 0xFFFF_FFFF_FFFF_FFFFu64);
                lemma_lnat_update(qq@, 0, (qq@[0] + 1) as u64);
                assert(pow2(0) == 1) by { lemma2_to64(); }
                assert((qq@[0] as int + 1 - qq@[0] as int) * 1 == 1) by (nonlinear_arith);
            }
            qq[0] = qq[0] + 1;
        }
        q = qq;
        proof {
            assert(lnat(q@) as int == 2 * q_old + qbit);
            assert(lnat(q@) as int == h / dn);
            assert(lnat(r@) as int == h % dn);
        }
    }
    proof {
        assert(pow2(0) == 1) by { lemma2_to64(); }
        assert(an / 1 == an) by {
            lemma_fundamental_div_mod_converse(an, 1, an, 0);
        }
    }
    (q, r)
}

} // verus!
