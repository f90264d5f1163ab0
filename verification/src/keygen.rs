//! Deterministic key-material generation: the seeded linear-congruential
//! step, the safe-prime search, and the construction of RSA and ECC key
//! sets assembled into the ordered lookup table.

use vstd::prelude::*;

verus! {

use vstd::arithmetic::power2::{pow2, lemma_pow2_adds, lemma_pow2_pos, lemma2_to64};
use vstd::arithmetic::div_mod::{
    lemma_fundamental_div_mod, lemma_small_mod, lemma_mod_division_less_than_divisor,
    lemma_add_mod_noop_right,
};
use crate::helper::{U256, U512, u512_to_u256, u256_to_u512};
use crate::limbs::lnat;
use crate::modmath::{gcd, mulmod_limbs, mul_exact_limbs, mod_add_limbs, inv_mod_limbs};
use crate::primality::{is_prime, trial_division_ok, prime_test_accepts};
use crate::ecc::{Point, EccCurve, ECC, ecc_scalar_mult, spec_scalar_mult};
use crate::rsa::RSA;
use crate::EngineError;

/// The linear-congruential multiplier.
pub const LCG_MUL: u64 = 6364136223846793005;

/// The linear-congruential increment.
pub const LCG_ADD: u64 = 1442695040888963407;

/// One step of the seeded linear-congruential walk, reduced into `[0, max)`.
pub open spec fn lcg_next(s: nat, max: nat) -> nat {
    ((s * (LCG_MUL as nat)) % max + (LCG_ADD as nat)) % max
}

/// Advance the seed by one linear-congruential step below `max` and hand
/// the new seed back.
pub fn simple_rand(seed: &mut U512, max: U512) -> (r: U512)
    requires
        max.as_nat() >= 1,
    ensures
        r.as_nat() == lcg_next(old(seed).as_nat(), max.as_nat()),
        *final(seed) == r,
{
    let ghost s0 = seed.as_nat();
    let ghost mx = max.as_nat() as int;
    let a = U512::from_u64(LCG_MUL);
    let w = U512 { limbs: mulmod_limbs(&seed.limbs, &a.limbs, &max.limbs) };
    let c = U512::from_u64(LCG_ADD);
    let (_q, cr) = c.div_rem(max);
    let r = U512 { limbs: mod_add_limbs(&w.limbs, &cr.limbs, &max.limbs) };
    proof {
        lemma_mod_division_less_than_divisor((s0 * (LCG_MUL as nat)) as int, mx);
        lemma_mod_division_less_than_divisor(LCG_ADD as int, mx);
        lemma_add_mod_noop_right(((s0 * (LCG_MUL as nat)) as int) % mx, LCG_ADD as int, mx);
        assert(r.as_nat() == lcg_next(s0, max.as_nat()));
    }
    *seed = r;
    r
}

/// The search budget: the number of candidates the walk may try before
/// the generator gives up. The original halves this in debug builds; the
/// release value is the one kept.
pub const SEARCH_BUDGET: u32 = 5_000_000;

/// A value with its low bit forced on.
pub open spec fn spec_make_odd(x: nat) -> nat {
    (x + 1 - x % 2) as nat
}

/// Acceptance of one half-candidate `q`: the prime `2q + 1` lies in range
/// and both halves pass the configured primality test.
#[verifier::opaque]
pub open spec fn safe_candidate_ok(q: nat, bits: nat, minv: nat, maxv: nat) -> bool {
    &&& minv <= 2 * q + 1 <= maxv
    &&& prime_test_accepts(q, (bits - 1) as nat)
    &&& prime_test_accepts(2 * q + 1, bits)
}

/// The deterministic candidate walk: step the half-candidate upward by two,
/// wrap past the top of the half-range back to its bottom, stop on the
/// first accepted candidate or when the fuel runs out.
#[verifier::opaque]
pub open spec fn safe_prime_walk(q: nat, fuel: nat, bits: nat, minv: nat, maxv: nat)
    -> Option<nat>
    decreases fuel,
{
    if fuel == 0 {
        None
    } else {
        let qmax = maxv / 2;
        let q1 = if q > qmax { spec_make_odd(minv / 2) } else { q };
        if q1 > qmax {
            None
        } else if safe_candidate_ok(q1, bits, minv, maxv) {
            Some(2 * q1 + 1)
        } else {
            safe_prime_walk(q1 + 2, (fuel - 1) as nat, bits, minv, maxv)
        }
    }
}

/// Where the walk starts for a given hint `n`: half of it, forced odd,
/// clamped up into the half-range.
pub open spec fn safe_prime_start(n: nat, minv: nat) -> nat {
    let c = spec_make_odd(n / 2);
    if c < minv / 2 {
        spec_make_odd(minv / 2)
    } else {
        c
    }
}

/// An over-the-top candidate with nowhere to wrap ends the walk.
proof fn lemma_walk_dead(q: nat, fuel: nat, bits: nat, minv: nat, maxv: nat)
    requires
        fuel >= 1,
        q > maxv / 2,
        spec_make_odd(minv / 2) > maxv / 2,
    ensures
        safe_prime_walk(q, fuel, bits, minv, maxv) is None,
{
    reveal(safe_prime_walk);
}

/// An over-the-top candidate wraps to the bottom of the half-range.
proof fn lemma_walk_wrap(q: nat, fuel: nat, bits: nat, minv: nat, maxv: nat)
    requires
        fuel >= 1,
        q > maxv / 2,
        spec_make_odd(minv / 2) <= maxv / 2,
    ensures
        safe_prime_walk(q, fuel, bits, minv, maxv)
            == safe_prime_walk(spec_make_odd(minv / 2), fuel, bits, minv, maxv),
{
    reveal(safe_prime_walk);
}

/// An accepted candidate ends the walk on its prime.
proof fn lemma_walk_hit(q: nat, fuel: nat, bits: nat, minv: nat, maxv: nat)
    requires
        fuel >= 1,
        q <= maxv / 2,
        safe_candidate_ok(q, bits, minv, maxv),
    ensures
        safe_prime_walk(q, fuel, bits, minv, maxv) == Some(2 * q + 1),
{
    reveal(safe_prime_walk);
}

/// A rejected candidate hands the walk on, two higher with one unit of
/// fuel spent.
proof fn lemma_walk_step(q: nat, fuel: nat, bits: nat, minv: nat, maxv: nat)
    requires
        fuel >= 1,
        q <= maxv / 2,
        !safe_candidate_ok(q, bits, minv, maxv),
    ensures
        safe_prime_walk(q, fuel, bits, minv, maxv)
            == safe_prime_walk(q + 2, (fuel - 1) as nat, bits, minv, maxv),
{
    reveal(safe_prime_walk);
}

/// Search for a safe prime `p == 2q + 1` with both halves accepted by the
/// primality tester and `min <= p <= max`: exactly the deterministic
/// candidate walk from the seeded starting point, within the budget.
#[verifier::rlimit(100)]
pub fn next_safe_prime(n: U512, bits: u16, min: U512, max: U512) -> (res: Option<U512>)
    requires
        bits >= 2,
        max.as_nat() >= 1,
    ensures
        ({
            let w = safe_prime_walk(safe_prime_start(n.as_nat(), min.as_nat()),
                SEARCH_BUDGET as nat, bits as nat, min.as_nat(), max.as_nat());
            match res {
                Some(p) => w == Some(p.as_nat()),
                None => w is None,
            }
        }),
        match res {
            Some(p) => {
                &&& min.as_nat() <= p.as_nat() <= max.as_nat()
                &&& 3 <= p.as_nat()
                &&& p.as_nat() % 2 == 1
                &&& prime_test_accepts(((p.as_nat() - 1) as nat) / 2, (bits - 1) as nat)
                &&& prime_test_accepts(p.as_nat(), bits as nat)
            },
            None => true,
        },
{
    let ghost mx = max.as_nat();
    let ghost mnv = min.as_nat();
    let q_min = min.shr1();
    let q_max = max.shr1();
    let mut q = n.shr1().make_odd();
    if q.cmp_with(&q_min) < 0 {
        q = q_min.make_odd();
    }
    let ghost qs = safe_prime_start(n.as_nat(), mnv);
    proof {
        assert(q.as_nat() == qs);
        crate::limbs::lemma_lnat_bound(max.limbs@);
    }
    let mut iter: u32 = 0;
    while iter < SEARCH_BUDGET
        invariant
            bits >= 2,
            iter <= SEARCH_BUDGET,
            max.as_nat() == mx && mx < pow2(512),
            min.as_nat() == mnv,
            q_max.as_nat() == mx / 2,
            q_min.as_nat() == mnv / 2,
            qs == safe_prime_start(n.as_nat(), mnv),
            safe_prime_walk(qs, SEARCH_BUDGET as nat, bits as nat, mnv, mx)
                == safe_prime_walk(q.as_nat(), (SEARCH_BUDGET - iter) as nat,
                    bits as nat, mnv, mx),
        decreases SEARCH_BUDGET - iter,
    {
        let ghost fuel = (SEARCH_BUDGET - iter) as nat;
        let ghost q_in = q.as_nat();
        if q.cmp_with(&q_max) > 0 {
            q = q_min.make_odd();
            if q.cmp_with(&q_max) > 0 {
                // the half-range holds no odd candidate at all
                proof {
                    lemma_walk_dead(q_in, fuel, bits as nat, mnv, mx);
                }
                return None;
            }
            proof {
                lemma_walk_wrap(q_in, fuel, bits as nat, mnv, mx);
            }
        }
        let ghost qv = q.as_nat();
        proof {
            lemma_fundamental_div_mod(mx as int, 2);
            assert(2 * (mx as int / 2) <= mx as int);
        }
        if trial_division_ok(&q) {
            let (dq, c) = q.overflowing_add(q);
            proof {
                assert(!c) by {
                    assert(q.as_nat() + q.as_nat() <= mx < pow2(512));
                }
            }
            let p = dq.make_odd();
            proof {
                crate::limbs::lemma_lnat_parity(dq.limbs@);
                lemma_fundamental_div_mod(dq.as_nat() as int, 2);
                assert(dq.as_nat() % 2 == 0) by {
                    vstd::arithmetic::div_mod::lemma_mod_multiples_vanish(
                        q.as_nat() as int, 0, 2);
                }
                assert(p.as_nat() == 2 * q.as_nat() + 1);
                assert((p.as_nat() - 1) as nat / 2 == q.as_nat()) by {
                    vstd::arithmetic::div_mod::lemma_fundamental_div_mod_converse(
                        (p.as_nat() - 1) as int, 2, q.as_nat() as int, 0);
                }
            }
            if trial_division_ok(&p) && p.cmp_with(&min) >= 0 && p.cmp_with(&max) <= 0 {
                if is_prime(q, bits - 1) {
                    if is_prime(p, bits) {
                        proof {
                            crate::limbs::lemma_lnat_parity(p.limbs@);
                            assert(safe_candidate_ok(qv, bits as nat, mnv, mx)) by {
                                reveal(safe_candidate_ok);
                            }
                            lemma_walk_hit(qv, fuel, bits as nat, mnv, mx);
                            assert(p.as_nat() >= 3) by {
                                reveal(crate::primality::prime_test_accepts);
                            }
                        }
                        return Some(p);
                    }
                }
            }
        }
        proof {
            // on every fall-through path some acceptance conjunct failed
            assert(!safe_candidate_ok(qv, bits as nat, mnv, mx)) by {
                reveal(safe_candidate_ok);
                reveal(crate::primality::prime_test_accepts);
            }
            lemma_walk_step(qv, fuel, bits as nat, mnv, mx);
        }
        let two = U512::from_u64(2);
        let (qn, c2) = q.overflowing_add(two);
        proof {
            assert(!c2) by {
                lemma_pow2_pos(512);
                assert(q.as_nat() + 2 < pow2(512)) by {
                    assert(mx / 2 <= mx);
                    assert(mx + 2 <= pow2(512) + 1) by {
                        assert(mx < pow2(512));
                    }
                    assert(pow2(512) >= 4) by {
                        vstd::arithmetic::power2::lemma_pow2_strictly_increases(2, 512);
                        assert(pow2(2) == 4) by { lemma2_to64(); }
                    }
                    assert(q.as_nat() <= mx / 2);
                }
            }
        }
        q = qn;
        iter = iter + 1;
    }
    proof {
        assert(safe_prime_walk(q.as_nat(), 0, bits as nat, mnv, mx) is None) by {
            reveal(safe_prime_walk);
        }
    }
    None
}

/// One lookup cell: the bit size with its RSA and ECC key sets.
#[derive(Clone, Copy, PartialEq, Eq)]
pub struct KeySize {
    pub bits: u16,
    pub rsa: RSA,
    pub ecc: ECC,
}

/// The value-level picture of one RSA key set, together with the seed the
/// walk leaves behind.
pub ghost struct SpecRsa {
    pub modulus: nat,
    pub totient: nat,
    pub exponent: nat,
    pub private_key: nat,
    pub session_key: nat,
    pub seed_after: nat,
}

/// What `generate_rsa` builds from two primes and a seed, as values.
#[verifier::opaque]
pub open spec fn spec_generate_rsa(p: nat, q: nat, s: nat) -> SpecRsa {
    let modulus = p * q;
    let totient = ((p - 1) * (q - 1)) as nat;
    let exponent: nat = if gcd(65537, totient) == 1 { 65537 } else { 3 };
    let private_key: nat = if gcd(exponent, totient) == 1 {
        crate::ecc::inv_mod_spec(exponent, totient)
    } else {
        1
    };
    let s1 = lcg_next(s, (modulus - 3) as nat);
    SpecRsa {
        modulus,
        totient,
        exponent,
        private_key,
        session_key: s1 + 1 + 1,
        seed_after: s1,
    }
}

/// The built key set denotes the value-level picture.
pub open spec fn rsa_matches(r: RSA, m: SpecRsa) -> bool {
    &&& r.modulus.as_nat() == m.modulus
    &&& r.totient.as_nat() == m.totient
    &&& r.exponent.as_nat() == m.exponent
    &&& r.private_key.as_nat() == m.private_key
    &&& r.session_key.as_nat() == m.session_key
}

/// The value-level picture of one ECC key set, with the seed left behind.
pub ghost struct SpecEcc {
    pub p: nat,
    pub gx: nat,
    pub gy: nat,
    pub k1: nat,
    pub pub1: (nat, nat),
    pub k2: nat,
    pub pub2: (nat, nat),
    pub seed_after: nat,
}

/// What `generate_ecc` builds from a field prime, the RSA private exponent
/// and a seed, as values.
#[verifier::opaque]
pub open spec fn spec_generate_ecc(prime: nat, rsa_d: nat, s: nat) -> SpecEcc {
    let s1 = lcg_next(s, (prime - 1) as nat);
    let s2 = lcg_next(s1, (prime - 1) as nat);
    let s3 = lcg_next(s2, (prime - 1) as nat);
    let k1: nat = if rsa_d % prime == 0 { 1 } else { rsa_d % prime };
    SpecEcc {
        p: prime,
        gx: s1 + 1,
        gy: s2 + 1,
        k1,
        pub1: spec_scalar_mult(k1, s1 + 1, s2 + 1, 2, prime),
        k2: s3 + 1,
        pub2: spec_scalar_mult(s3 + 1, s1 + 1, s2 + 1, 2, prime),
        seed_after: s3,
    }
}

/// The built key set denotes the value-level picture.
pub open spec fn ecc_matches(e: ECC, m: SpecEcc) -> bool {
    &&& e.curve.a.as_nat() == 2
    &&& e.curve.b.as_nat() == 3
    &&& e.curve.p.as_nat() == m.p
    &&& e.curve.generator.x.as_nat() == m.gx
    &&& e.curve.generator.y.as_nat() == m.gy
    &&& e.private_key1.as_nat() == m.k1
    &&& (e.public_key1.x.as_nat(), e.public_key1.y.as_nat()) == m.pub1
    &&& e.private_key2.as_nat() == m.k2
    &&& (e.public_key2.x.as_nat(), e.public_key2.y.as_nat()) == m.pub2
}

/// Build one RSA key set from two primes: modulus and totient by exact
/// products, the fixed public exponent falling back to three when no
/// inverse exists, the matching private exponent, and a session key drawn
/// from the seeded walk.
pub fn generate_rsa(p: U512, q: U512, seed: &mut U512) -> (r: RSA)
    requires
        p.as_nat() >= 3,
        q.as_nat() >= 3,
        p.as_nat() * q.as_nat() < pow2(512),
    ensures
        r.modulus.as_nat() == p.as_nat() * q.as_nat(),
        r.totient.as_nat() == (p.as_nat() - 1) * (q.as_nat() - 1),
        ({
            let tot = r.totient.as_nat();
            let e = r.exponent.as_nat();
            let d = r.private_key.as_nat();
            &&& (gcd(65537, tot) == 1 ==> e == 65537 && (e * d) % tot == 1nat % tot)
            &&& (gcd(65537, tot) != 1 && gcd(3, tot) == 1
                ==> e == 3 && (e * d) % tot == 1nat % tot)
            &&& (gcd(65537, tot) != 1 && gcd(3, tot) != 1 ==> e == 3 && d == 1)
        }),
        r.session_key.as_nat()
            == lcg_next(old(seed).as_nat(), (r.modulus.as_nat() - 3) as nat) + 2,
        final(seed).as_nat() == lcg_next(old(seed).as_nat(), (r.modulus.as_nat() - 3) as nat),
        rsa_matches(r, spec_generate_rsa(p.as_nat(), q.as_nat(), old(seed).as_nat())),
        final(seed).as_nat()
            == spec_generate_rsa(p.as_nat(), q.as_nat(), old(seed).as_nat()).seed_after,
{
    let ghost pn = p.as_nat();
    let ghost qn = q.as_nat();
    proof {
        vstd::arithmetic::mul::lemma_mul_upper_bound(
            pn as int - 1, pn as int, qn as int - 1, qn as int);
        assert(pn * qn >= 9) by (nonlinear_arith)
            requires
                pn >= 3 && qn >= 3,
        ;
    }
    let modulus = U512 { limbs: mul_exact_limbs(&p.limbs, &q.limbs) };
    let one = U512::from_u64(1);
    let (p1, _b1) = p.overflowing_sub(one);
    let (q1, _b2) = q.overflowing_sub(one);
    let totient = U512 { limbs: mul_exact_limbs(&p1.limbs, &q1.limbs) };
    proof {
        assert(totient.as_nat() >= 4) by (nonlinear_arith)
            requires
                totient.as_nat() == (pn - 1) * (qn - 1),
                pn >= 3 && qn >= 3,
        ;
    }
    let ew = u256_to_u512(U256::from_u64(65537));
    let three = U512::from_u64(3);
    let exponent: U256;
    let ghost tot = totient.as_nat();
    let inv1 = inv_mod_limbs(&ew.limbs, &totient.limbs);
    let private_key: U512 = match inv1 {
        Some(x) => {
            exponent = U256::from_u64(65537);
            proof {
                // the returned inverse is the unique reduced one
                let w = choose|v: nat| v < tot && #[trigger] ((65537nat * v) % tot)
                    == 1nat % tot;
                assert((65537nat * lnat(x@)) % tot == 1nat % tot);
                crate::ecc::lemma_inv_unique(65537nat, tot, w, lnat(x@));
                assert(lnat(x@) == crate::ecc::inv_mod_spec(65537nat, tot));
            }
            U512 { limbs: x }
        },
        None => {
            exponent = U256::from_u64(3);
            let inv2 = inv_mod_limbs(&three.limbs, &totient.limbs);
            match inv2 {
                Some(x) => {
                    proof {
                        let w = choose|v: nat| v < tot && #[trigger] ((3nat * v) % tot)
                            == 1nat % tot;
                        assert((3nat * lnat(x@)) % tot == 1nat % tot);
                        crate::ecc::lemma_inv_unique(3nat, tot, w, lnat(x@));
                        assert(lnat(x@) == crate::ecc::inv_mod_spec(3nat, tot));
                    }
                    U512 { limbs: x }
                },
                None => one,
            }
        },
    };
    let (max_session, _bs) = modulus.overflowing_sub(three);
    let s1 = simple_rand(seed, max_session);
    let two = U512::from_u64(2);
    let (session_key, _cs) = s1.overflowing_add(two);
    proof {
        lemma_mod_division_less_than_divisor(
            ((old(seed).as_nat() * (LCG_MUL as nat)) % (max_session.as_nat()) + (LCG_ADD as nat)) as int,
            max_session.as_nat() as int);
        crate::limbs::lemma_lnat_bound(modulus.limbs@);
    }
    proof {
        reveal(spec_generate_rsa);
    }
    RSA { session_key, modulus, totient, exponent, private_key }
}

/// Build one ECC key set over the truncated prime field: the fixed curve
/// coefficients, a seeded generator point, the first private key reduced
/// from the RSA private exponent, a seeded second private key, and both
/// public points by scalar multiplication.
pub fn generate_ecc(prime: U512, rsa_private_key: U512, seed: &mut U512) -> (r: ECC)
    requires
        prime.as_nat() >= 2,
        prime.as_nat() < pow2(256),
    ensures
        r.curve.a.as_nat() == 2,
        r.curve.b.as_nat() == 3,
        r.curve.p.as_nat() == prime.as_nat(),
        ({
            let s1 = lcg_next(old(seed).as_nat(), (prime.as_nat() - 1) as nat);
            let s2 = lcg_next(s1, (prime.as_nat() - 1) as nat);
            let s3 = lcg_next(s2, (prime.as_nat() - 1) as nat);
            &&& r.curve.generator.x.as_nat() == s1 + 1
            &&& r.curve.generator.y.as_nat() == s2 + 1
            &&& r.private_key1.as_nat() == (if rsa_private_key.as_nat() % prime.as_nat() == 0
                { 1nat } else { rsa_private_key.as_nat() % prime.as_nat() })
            &&& 1 <= r.private_key1.as_nat() < prime.as_nat()
            &&& 1 <= r.private_key2.as_nat() < prime.as_nat()
            &&& r.private_key2.as_nat() == s3 + 1
            &&& final(seed).as_nat() == s3
            &&& (r.public_key1.x.as_nat(), r.public_key1.y.as_nat())
                == spec_scalar_mult(r.private_key1.as_nat(), s1 + 1, s2 + 1, 2,
                    prime.as_nat())
            &&& (r.public_key2.x.as_nat(), r.public_key2.y.as_nat())
                == spec_scalar_mult(s3 + 1, s1 + 1, s2 + 1, 2, prime.as_nat())
        }),
        ecc_matches(r, spec_generate_ecc(prime.as_nat(), rsa_private_key.as_nat(),
            old(seed).as_nat())),
        final(seed).as_nat() == spec_generate_ecc(prime.as_nat(), rsa_private_key.as_nat(),
            old(seed).as_nat()).seed_after,
{
    let ghost prn = prime.as_nat();
    let prime_u256 = u512_to_u256(prime);
    proof {
        lemma_small_mod(prn, pow2(256));
        vstd::arithmetic::power2::lemma_pow2_strictly_increases(256, 512);
    }
    let a = U256::from_u64(2);
    let b = U256::from_u64(3);
    let one = U512::from_u64(1);
    let (pm1, _b0) = prime.overflowing_sub(one);
    let gx_w = simple_rand(seed, pm1);
    let (gx1, _c1) = gx_w.overflowing_add(one);
    let gen_x = u512_to_u256(gx1);
    let gy_w = simple_rand(seed, pm1);
    let (gy1, _c2) = gy_w.overflowing_add(one);
    let gen_y = u512_to_u256(gy1);
    proof {
        lemma_mod_division_less_than_divisor(
            ((old(seed).as_nat() * (LCG_MUL as nat)) % pm1.as_nat() + (LCG_ADD as nat)) as int,
            pm1.as_nat() as int);
        lemma_mod_division_less_than_divisor(
            ((gx_w.as_nat() * (LCG_MUL as nat)) % pm1.as_nat() + (LCG_ADD as nat)) as int,
            pm1.as_nat() as int);
        lemma_small_mod(gx1.as_nat(), pow2(256));
        lemma_small_mod(gy1.as_nat(), pow2(256));
    }
    let generator = Point { x: gen_x, y: gen_y };
    let curve = EccCurve { a, b, p: prime_u256, generator };
    // the first scalar is the RSA private exponent reduced into the field,
    // lifted to one when the reduction lands on zero: scalars stay in [1, p-1]
    let (_qd, pk1w) = rsa_private_key.div_rem(prime);
    let private_key1 = if pk1w.is_zero() {
        U256::from_u64(1)
    } else {
        u512_to_u256(pk1w)
    };
    proof {
        lemma_mod_division_less_than_divisor(rsa_private_key.as_nat() as int, prn as int);
        lemma_small_mod(pk1w.as_nat(), pow2(256));
    }
    let public_key1 = ecc_scalar_mult(private_key1, &generator, &curve);
    let pk2_w = simple_rand(seed, pm1);
    let (pk21, _c3) = pk2_w.overflowing_add(one);
    let private_key2 = u512_to_u256(pk21);
    proof {
        lemma_mod_division_less_than_divisor(
            ((gy_w.as_nat() * (LCG_MUL as nat)) % pm1.as_nat() + (LCG_ADD as nat)) as int,
            pm1.as_nat() as int);
        lemma_small_mod(pk21.as_nat(), pow2(256));
    }
    let public_key2 = ecc_scalar_mult(private_key2, &generator, &curve);
    proof {
        reveal(spec_generate_ecc);
    }
    ECC { curve, private_key1, public_key1, private_key2, public_key2 }
}

/// One cell of the value-level table.
pub ghost struct SpecCell {
    pub bits: nat,
    pub rsa: SpecRsa,
    pub ecc: SpecEcc,
}

/// The built cell denotes the value-level one.
pub open spec fn cell_matches(c: KeySize, m: SpecCell) -> bool {
    &&& c.bits as nat == m.bits
    &&& rsa_matches(c.rsa, m.rsa)
    &&& ecc_matches(c.ecc, m.ecc)
}

/// The seeded starting candidate for one bit size: the seed scaled into the
/// range, through the wrapping linear-congruential constants.
#[verifier::opaque]
pub open spec fn spec_start_candidate(seed: nat, bits: nat) -> nat {
    let minv = pow2((bits - 1) as nat);
    let maxv = (pow2(bits) - 1) as nat;
    let sm = seed * bits;
    let smm = (sm * (LCG_MUL as nat)) % pow2(512);
    let sadd = (smm + (LCG_ADD as nat)) % pow2(512);
    minv + sadd % ((maxv - minv + 1) as nat)
}

/// The chained trial cells for one bit size: three safe primes per trial,
/// both key sets from the rolling seed, the next candidate four past the
/// last prime; nothing when any search exhausts its budget.
#[verifier::opaque]
pub open spec fn spec_trial_cells(
    cand: nat, s2: nat, bits: nat, minv: nat, maxv: nat, t: nat) -> Option<Seq<SpecCell>>
    decreases t,
{
    if t == 0 {
        Some(Seq::empty())
    } else {
        match safe_prime_walk(safe_prime_start(cand, minv), SEARCH_BUDGET as nat,
            bits, minv, maxv) {
            None => None,
            Some(p1) => match safe_prime_walk(safe_prime_start(p1 + 4, minv),
                SEARCH_BUDGET as nat, bits, minv, maxv) {
                None => None,
                Some(p2) => match safe_prime_walk(safe_prime_start(p2 + 4, minv),
                    SEARCH_BUDGET as nat, bits, minv, maxv) {
                    None => None,
                    Some(p3) => {
                        let r = spec_generate_rsa(p1, p2, s2);
                        let e = spec_generate_ecc(p3, r.private_key, r.seed_after);
                        let cell = SpecCell { bits, rsa: r, ecc: e };
                        match spec_trial_cells(p3 + 4, e.seed_after, bits, minv, maxv,
                            (t - 1) as nat) {
                            None => None,
                            Some(rest) => Some(seq![cell] + rest),
                        }
                    },
                },
            },
        }
    }
}

/// The whole value-level table across the bit range: every multiple-of-eight
/// bit size contributes its trial cells in order.
#[verifier::opaque]
pub open spec fn spec_table(seed: nat, lo: nat, hi: nat, trials: nat)
    -> Option<Seq<SpecCell>>
    decreases hi + 1 - lo,
{
    if lo > hi {
        Some(Seq::empty())
    } else {
        let tail = spec_table(seed, lo + 1, hi, trials);
        if lo % 8 != 0 {
            tail
        } else {
            let minv = pow2((lo - 1) as nat);
            let maxv = (pow2(lo) - 1) as nat;
            match spec_trial_cells(spec_start_candidate(seed, lo), seed + lo, lo,
                minv, maxv, trials) {
                None => None,
                Some(head) => match tail {
                    None => None,
                    Some(rest) => Some(head + rest),
                },
            }
        }
    }
}

/// A spent trial budget yields the empty cell run.
proof fn lemma_cells_zero(cand: nat, s2: nat, bits: nat, minv: nat, maxv: nat)
    ensures
        spec_trial_cells(cand, s2, bits, minv, maxv, 0) == Some(Seq::<SpecCell>::empty()),
{
    reveal(spec_trial_cells);
}

/// A failed search anywhere in the triple ends the cell run with nothing.
proof fn lemma_cells_none(cand: nat, s2: nat, bits: nat, minv: nat, maxv: nat, t: nat)
    requires
        t >= 1,
        ({
            let w1 = safe_prime_walk(safe_prime_start(cand, minv), SEARCH_BUDGET as nat,
                bits, minv, maxv);
            ||| w1 is None
            ||| (w1 is Some && safe_prime_walk(safe_prime_start(w1->0 + 4, minv),
                    SEARCH_BUDGET as nat, bits, minv, maxv) is None)
            ||| (w1 is Some && {
                let w2 = safe_prime_walk(safe_prime_start(w1->0 + 4, minv),
                    SEARCH_BUDGET as nat, bits, minv, maxv);
                w2 is Some && safe_prime_walk(safe_prime_start(w2->0 + 4, minv),
                    SEARCH_BUDGET as nat, bits, minv, maxv) is None
            })
        }),
    ensures
        spec_trial_cells(cand, s2, bits, minv, maxv, t) is None,
{
    reveal(spec_trial_cells);
}

/// Three found primes unfold one step of the cell run.
proof fn lemma_cells_step(
    cand: nat, s2: nat, bits: nat, minv: nat, maxv: nat, t: nat,
    p1: nat, p2: nat, p3: nat)
    requires
        t >= 1,
        safe_prime_walk(safe_prime_start(cand, minv), SEARCH_BUDGET as nat,
            bits, minv, maxv) == Some(p1),
        safe_prime_walk(safe_prime_start(p1 + 4, minv), SEARCH_BUDGET as nat,
            bits, minv, maxv) == Some(p2),
        safe_prime_walk(safe_prime_start(p2 + 4, minv), SEARCH_BUDGET as nat,
            bits, minv, maxv) == Some(p3),
    ensures
        ({
            let r = spec_generate_rsa(p1, p2, s2);
            let e = spec_generate_ecc(p3, r.private_key, r.seed_after);
            let cell = SpecCell { bits, rsa: r, ecc: e };
            spec_trial_cells(cand, s2, bits, minv, maxv, t)
                == match spec_trial_cells(p3 + 4, e.seed_after, bits, minv, maxv,
                    (t - 1) as nat) {
                    None => None,
                    Some(rest) => Some(seq![cell] + rest),
                }
        }),
{
    reveal(spec_trial_cells);
}

/// Past the top of the range the table is empty.
proof fn lemma_table_end(seed: nat, lo: nat, hi: nat, trials: nat)
    requires
        lo > hi,
    ensures
        spec_table(seed, lo, hi, trials) == Some(Seq::<SpecCell>::empty()),
{
    reveal(spec_table);
}

/// A bit size off the eight-step grid contributes nothing.
proof fn lemma_table_skip(seed: nat, lo: nat, hi: nat, trials: nat)
    requires
        lo <= hi,
        lo % 8 != 0,
    ensures
        spec_table(seed, lo, hi, trials) == spec_table(seed, lo + 1, hi, trials),
{
    reveal(spec_table);
}

/// A bit size on the grid contributes its cell run, then the rest.
proof fn lemma_table_cons(seed: nat, lo: nat, hi: nat, trials: nat)
    requires
        lo <= hi,
        lo % 8 == 0,
    ensures
        ({
            let minv = pow2((lo - 1) as nat);
            let maxv = (pow2(lo) - 1) as nat;
            spec_table(seed, lo, hi, trials)
                == match spec_trial_cells(spec_start_candidate(seed, lo), seed + lo, lo,
                    minv, maxv, trials) {
                    None => None,
                    Some(head) => match spec_table(seed, lo + 1, hi, trials) {
                        None => None,
                        Some(rest) => Some(head + rest),
                    },
                }
        }),
{
    reveal(spec_table);
}

/// The trial cells for one bit size: three safe-prime searches per cell,
/// chained through the rolling seed; a failed search is the fatal search
/// exhaustion.
fn generate_trials(bits: u16, candidate: U512, seed2_start: U512, trials: u8,
    min: U512, max: U512) -> (res: Result<Vec<KeySize>, EngineError>)
    requires
        8 <= bits && bits <= 256 && bits % 8 == 0,
        min.as_nat() == pow2((bits - 1) as nat),
        max.as_nat() == pow2(bits as nat) - 1,
        max.as_nat() >= 1,
        max.as_nat() < pow2(256),
    ensures
        ({
            let w = spec_trial_cells(candidate.as_nat(), seed2_start.as_nat(),
                bits as nat, min.as_nat(), max.as_nat(), trials as nat);
            match res {
                Ok(v) => match w {
                    Some(cells) => v@.len() == cells.len()
                        && (forall|i: int| 0 <= i < cells.len()
                            ==> cell_matches(#[trigger] v@[i], cells[i]))
                        && (forall|i: int| 0 <= i < v@.len()
                            ==> (#[trigger] v@[i]).bits == bits),
                    None => false,
                },
                Err(e) => e == EngineError::SearchExhausted && w is None,
            }
        }),
{
    let ghost c0 = candidate.as_nat();
    let ghost s0 = seed2_start.as_nat();
    let ghost mnv = min.as_nat();
    let ghost mx = max.as_nat();
    let mut out: Vec<KeySize> = Vec::new();
    let ghost mut done: Seq<SpecCell> = Seq::empty();
    let mut cand = candidate;
    let mut seed2 = seed2_start;
    let mut t: u8 = 0;
    while t < trials
        invariant
            t <= trials,
            8 <= bits && bits <= 256 && bits % 8 == 0,
            min.as_nat() == mnv && mnv == pow2((bits - 1) as nat),
            max.as_nat() == mx && mx == pow2(bits as nat) - 1,
            c0 == candidate.as_nat() && s0 == seed2_start.as_nat(),
            mx >= 1 && mx < pow2(256),
            out@.len() == done.len(),
            forall|i: int| 0 <= i < done.len()
                ==> cell_matches(#[trigger] out@[i], done[i]),
            forall|i: int| 0 <= i < out@.len() ==> (#[trigger] out@[i]).bits == bits,
            spec_trial_cells(c0, s0, bits as nat, mnv, mx, trials as nat)
                == match spec_trial_cells(cand.as_nat(), seed2.as_nat(), bits as nat,
                    mnv, mx, (trials - t) as nat) {
                    None => None::<Seq<SpecCell>>,
                    Some(rest) => Some(done + rest),
                },
        decreases trials - t,
    {
        let ghost cv = cand.as_nat();
        let ghost sv = seed2.as_nat();
        let ghost rem = (trials - t) as nat;
        let p1 = match next_safe_prime(cand, bits, min, max) {
            Some(p) => p,
            None => {
                proof {
                    lemma_cells_none(cv, sv, bits as nat, mnv, mx, rem);
                }
                return Err(EngineError::SearchExhausted);
            },
        };
        let four = U512::from_u64(4);
        let (c1, _x1) = p1.overflowing_add(four);
        proof {
            assert(c1.as_nat() == p1.as_nat() + 4) by {
                lemma_pow2_adds(256, 256);
                assert(pow2(512) >= 2 * pow2(256)) by (nonlinear_arith)
                    requires
                        pow2(512) == pow2(256) * pow2(256),
                        pow2(256) >= 2,
                ;
                vstd::arithmetic::power2::lemma_pow2_strictly_increases(1, 256);
                assert(pow2(1) == 2) by { lemma2_to64(); }
            }
        }
        let p2 = match next_safe_prime(c1, bits, min, max) {
            Some(p) => p,
            None => {
                proof {
                    lemma_cells_none(cv, sv, bits as nat, mnv, mx, rem);
                }
                return Err(EngineError::SearchExhausted);
            },
        };
        let (c2, _x2) = p2.overflowing_add(four);
        proof {
            assert(c2.as_nat() == p2.as_nat() + 4) by {
                lemma_pow2_adds(256, 256);
                assert(pow2(512) >= 2 * pow2(256)) by (nonlinear_arith)
                    requires
                        pow2(512) == pow2(256) * pow2(256),
                        pow2(256) >= 2,
                ;
                vstd::arithmetic::power2::lemma_pow2_strictly_increases(1, 256);
                assert(pow2(1) == 2) by { lemma2_to64(); }
            }
        }
        let p3 = match next_safe_prime(c2, bits, min, max) {
            Some(p) => p,
            None => {
                proof {
                    lemma_cells_none(cv, sv, bits as nat, mnv, mx, rem);
                }
                return Err(EngineError::SearchExhausted);
            },
        };
        let (c3, _x3) = p3.overflowing_add(four);
        cand = c3;
        proof {
            assert(c3.as_nat() == p3.as_nat() + 4) by {
                lemma_pow2_adds(256, 256);
                assert(pow2(512) >= 2 * pow2(256)) by (nonlinear_arith)
                    requires
                        pow2(512) == pow2(256) * pow2(256),
                        pow2(256) >= 2,
                ;
                vstd::arithmetic::power2::lemma_pow2_strictly_increases(1, 256);
                assert(pow2(1) == 2) by { lemma2_to64(); }
            }
            assert(p1.as_nat() * p2.as_nat() < pow2(512)) by {
                lemma_pow2_adds(256, 256);
                vstd::arithmetic::mul::lemma_mul_upper_bound(
                    p1.as_nat() as int, pow2(256) as int - 1,
                    p2.as_nat() as int, pow2(256) as int - 1);
                assert((pow2(256) as int - 1) * (pow2(256) as int - 1)
                    < pow2(256) as int * pow2(256) as int) by (nonlinear_arith)
                    requires
                        pow2(256) >= 2,
                ;
                vstd::arithmetic::power2::lemma_pow2_strictly_increases(1, 256);
                assert(pow2(1) == 2) by { lemma2_to64(); }
            }
            assert(p3.as_nat() >= 2);
            assert(p3.as_nat() < pow2(256));
        }
        let rsa_set = generate_rsa(p1, p2, &mut seed2);
        let ecc_set = generate_ecc(p3, rsa_set.private_key, &mut seed2);
        out.push(KeySize { bits, rsa: rsa_set, ecc: ecc_set });
        t = t + 1;
        proof {
            lemma_cells_step(cv, sv, bits as nat, mnv, mx, rem,
                p1.as_nat(), p2.as_nat(), p3.as_nat());
            let r = spec_generate_rsa(p1.as_nat(), p2.as_nat(), sv);
            let e = spec_generate_ecc(p3.as_nat(), r.private_key, r.seed_after);
            let cell = SpecCell { bits: bits as nat, rsa: r, ecc: e };
            let done2 = done + seq![cell];
            assert forall|rest: Seq<SpecCell>|
                true implies done + (seq![cell] + rest) =~= done2 + rest by {
            }
            done = done2;
        }
    }
    proof {
        lemma_cells_zero(cand.as_nat(), seed2.as_nat(), bits as nat, mnv, mx);
        assert(done + Seq::<SpecCell>::empty() =~= done);
    }
    Ok(out)
}

/// Generate the ordered lookup table: for every multiple-of-eight bit size
/// in the range, `trials` cells, each built from three fresh safe primes
/// and the two seeded walks the material derives from; exactly the
/// value-level table, or search exhaustion where it has none.
pub fn generate_lookup_table(seed: u32, min_bits: u16, max_bits: u16, trials: u8)
    -> (res: Result<Vec<KeySize>, EngineError>)
    requires
        8 <= min_bits,
        min_bits <= max_bits,
        max_bits <= 256,
    ensures
        ({
            let w = spec_table(seed as nat, min_bits as nat, max_bits as nat,
                trials as nat);
            match res {
                Ok(v) => match w {
                    Some(cells) => v@.len() == cells.len()
                        && (forall|i: int| 0 <= i < cells.len()
                            ==> cell_matches(#[trigger] v@[i], cells[i]))
                        && (forall|i: int| 0 <= i < v@.len()
                            ==> (#[trigger] v@[i]).bits as nat % 8 == 0),
                    None => false,
                },
                Err(e) => e == EngineError::SearchExhausted && w is None,
            }
        }),
{
    let mut table: Vec<KeySize> = Vec::new();
    let ghost mut done: Seq<SpecCell> = Seq::empty();
    let mut bits: u16 = min_bits;
    while bits <= max_bits
        invariant
            8 <= min_bits && min_bits <= bits,
            max_bits <= 256,
            bits <= max_bits + 1,
            table@.len() == done.len(),
            forall|i: int| 0 <= i < done.len()
                ==> cell_matches(#[trigger] table@[i], done[i]),
            forall|i: int| 0 <= i < table@.len()
                ==> (#[trigger] table@[i]).bits as nat % 8 == 0,
            spec_table(seed as nat, min_bits as nat, max_bits as nat, trials as nat)
                == match spec_table(seed as nat, bits as nat, max_bits as nat,
                    trials as nat) {
                    None => None::<Seq<SpecCell>>,
                    Some(rest) => Some(done + rest),
                },
        decreases max_bits + 1 - bits,
    {
        if bits % 8 == 0 {
            let min = U512::from_pow2((bits - 1) as usize);
            let maxp = U512::from_pow2(bits as usize);
            let one = U512::from_u64(1);
            let (max, _bm) = maxp.overflowing_sub(one);
            proof {
                lemma_pow2_pos(bits as nat);
                lemma_pow2_pos((bits - 1) as nat);
                vstd::arithmetic::power2::lemma_pow2_strictly_increases(
                    (bits - 1) as nat, bits as nat);
                vstd::arithmetic::power2::lemma_pow2_strictly_increases(
                    bits as nat, 512);
                if (bits as nat) < 256 {
                    vstd::arithmetic::power2::lemma_pow2_strictly_increases(
                        bits as nat, 256);
                }
            }
            // the seeded starting candidate for this bit size
            let seed_base = U512::from_u64(seed as u64);
            let bits_w = U512::from_u64(bits as u64);
            proof {
                vstd::arithmetic::mul::lemma_mul_upper_bound(
                    seed_base.as_nat() as int, 0xFFFF_FFFFu64 as int,
                    bits_w.as_nat() as int, 0xFFFFu64 as int);
                lemma2_to64();
                vstd::arithmetic::power2::lemma_pow2_strictly_increases(63, 512);
                vstd::bits::lemma_u64_pow2_no_overflow(63);
                vstd::arithmetic::power2::lemma2_to64_rest();
                assert(0xFFFF_FFFFu64 as int * 0xFFFFu64 as int == 281470681677825int)
                    by (nonlinear_arith);
                assert((seed_base.as_nat() as int) * (bits_w.as_nat() as int)
                    <= 281470681677825int);
                assert(seed_base.as_nat() * bits_w.as_nat() < pow2(512));
            }
            let sm = U512 { limbs: mul_exact_limbs(&seed_base.limbs, &bits_w.limbs) };
            let (smm, carry) = crate::limbs::mul_u64_limbs(&sm.limbs, LCG_MUL);
            let sa0 = U512 { limbs: smm };
            proof {
                crate::limbs::lemma_lnat_bound(smm@);
                vstd::arithmetic::div_mod::lemma_fundamental_div_mod_converse(
                    (sm.as_nat() * (LCG_MUL as nat)) as int, pow2(512) as int,
                    carry as int, sa0.as_nat() as int);
            }
            let add_w = U512::from_u64(LCG_ADD);
            let (seed_add, ca) = sa0.overflowing_add(add_w);
            proof {
                crate::limbs::lemma_lnat_bound(seed_add.limbs@);
                vstd::arithmetic::div_mod::lemma_fundamental_div_mod_converse(
                    (sa0.as_nat() + LCG_ADD as nat) as int, pow2(512) as int,
                    (if ca { 1int } else { 0int }), seed_add.as_nat() as int);
            }
            let (range_a, _br) = max.overflowing_sub(min);
            let (range_size, _cr) = range_a.overflowing_add(one);
            proof {
                assert(range_size.as_nat() >= 1) by {
                    crate::limbs::lemma_lnat_bound(max.limbs@);
                }
            }
            let (_qs, off) = seed_add.div_rem(range_size);
            let (candidate, _cc) = min.overflowing_add(off);
            // the starting candidate already lies at or above min, so the
            // top range bit is set and needs no correction
            proof {
                vstd::arithmetic::div_mod::lemma_mod_division_less_than_divisor(
                    seed_add.as_nat() as int, range_size.as_nat() as int);
                assert(candidate.as_nat()
                    == spec_start_candidate(seed as nat, bits as nat)) by {
                    reveal(spec_start_candidate);
                }
            }
            let seed_w = U512::from_u64(seed as u64);
            let bw2 = U512::from_u64(bits as u64);
            let (seed2, _c2) = seed_w.overflowing_add(bw2);
            proof {
                lemma_table_cons(seed as nat, bits as nat, max_bits as nat,
                    trials as nat);
            }
            let cells = match generate_trials(bits, candidate, seed2, trials, min, max) {
                Ok(v) => v,
                Err(e) => {
                    return Err(EngineError::SearchExhausted);
                },
            };
            let ghost w = spec_trial_cells(candidate.as_nat(), seed2.as_nat(),
                bits as nat, min.as_nat(), max.as_nat(), trials as nat);
            let ghost head = w->0;
            let mut j: usize = 0;
            while j < cells.len()
                invariant
                    j <= cells.len(),
                    cells@.len() == head.len(),
                    forall|i: int| 0 <= i < head.len()
                        ==> cell_matches(#[trigger] cells@[i], head[i]),
                    forall|i: int| 0 <= i < head.len()
                        ==> (#[trigger] cells@[i]).bits as nat % 8 == 0,
                    table@.len() == done.len() + j,
                    forall|i: int| 0 <= i < done.len()
                        ==> cell_matches(#[trigger] table@[i], done[i]),
                    forall|i: int| done.len() <= i < table@.len()
                        ==> cell_matches(#[trigger] table@[i], head[i - done.len()]),
                    forall|i: int| 0 <= i < table@.len()
                        ==> (#[trigger] table@[i]).bits as nat % 8 == 0,
                decreases cells@.len() - j,
            {
                let c = cells[j];
                table.push(c);
                j = j + 1;
            }
            proof {
                let done2 = done + head;
                assert(table@.len() == done2.len());
                assert forall|i: int| 0 <= i < done2.len()
                    implies cell_matches(#[trigger] table@[i], done2[i]) by {
                    if i < done.len() {
                    } else {
                        assert(done2[i] == head[i - done.len()]);
                    }
                }
                done = done2;
            }
        } else {
            proof {
                lemma_table_skip(seed as nat, bits as nat, max_bits as nat,
                    trials as nat);
            }
        }
        bits = bits + 1;
    }
    proof {
        lemma_table_end(seed as nat, bits as nat, max_bits as nat, trials as nat);
        assert(done + Seq::<SpecCell>::empty() =~= done);
    }
    Ok(table)
}

} // verus!
