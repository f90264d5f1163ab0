//! Primality testing: trial division by a fixed table of small primes,
//! then Miller-Rabin with deterministic witness bases, the round count
//! scaled to the operand bit length.

use vstd::prelude::*;

verus! {

use vstd::arithmetic::power2::{pow2, lemma_pow2_adds, lemma_pow2_pos, lemma2_to64};
use vstd::arithmetic::power::{pow, lemma_pow_multiplies, lemma_pow_mod_noop};
use vstd::arithmetic::div_mod::{lemma_fundamental_div_mod, lemma_small_mod};
use crate::helper::U512;
use crate::modmath::{mulmod_limbs, powmod_limbs};

/// The fixed table of small trial divisors: the primes below one hundred.
pub open spec fn small_primes_seq() -> Seq<u64> {
    seq![2u64, 3, 5, 7, 11, 13, 17, 19, 23, 29, 31, 37, 41, 43, 47, 53, 59, 61, 67, 71,
        73, 79, 83, 89, 97]
}

/// The deterministic Miller-Rabin witness bases.
pub open spec fn mr_bases() -> Seq<u64> {
    seq![2u64, 3, 5, 7, 11, 13, 17]
}

/// The small-prime table as a vector.
pub fn small_primes() -> (v: Vec<u64>)
    ensures
        v@ == small_primes_seq(),
{
    let v: Vec<u64> = vec![2u64, 3, 5, 7, 11, 13, 17, 19, 23, 29, 31, 37, 41, 43, 47, 53,
        59, 61, 67, 71, 73, 79, 83, 89, 97];
    proof {
        assert(v@ =~= small_primes_seq());
    }
    v
}

/// Survival of trial division: no table prime divides `n` unless it is `n`.
#[verifier::opaque]
pub open spec fn passes_trial_division(n: nat) -> bool {
    forall|i: int| 0 <= i < small_primes_seq().len()
        ==> !(n % (small_primes_seq()[i] as nat) == 0 && n != small_primes_seq()[i])
}

/// The odd part of a number: what remains after dividing out every two.
pub open spec fn odd_part(x: nat) -> nat
    decreases x,
{
    if x == 0 {
        0
    } else if x % 2 == 1 {
        x
    } else {
        odd_part(x / 2)
    }
}

/// The number of twos dividing `x`.
pub open spec fn two_adic(x: nat) -> nat
    decreases x,
{
    if x == 0 {
        0
    } else if x % 2 == 1 {
        0
    } else {
        1 + two_adic(x / 2)
    }
}

/// One witness base accepts `n` (with `n - 1 == d * 2^r`, `d` odd): the base
/// powers to one, or some square in the chain powers to `n - 1`.
pub open spec fn mr_base_accepts(n: nat, d: nat, r: nat, a: nat) -> bool {
    ||| pow(a as int, d) % (n as int) == 1int % (n as int)
    ||| exists|j: nat| j < r && pow(a as int, d * pow2(j)) % (n as int) == n - 1
}

/// The number of witness bases used for `k` requested rounds.
pub open spec fn mr_rounds(k: nat) -> nat {
    if k < 7 { k } else { 7 }
}

/// Acceptance by the Miller-Rabin tester with `k` rounds: every used base
/// that is below `n` accepts it.
pub open spec fn mr_accepts(n: nat, k: nat) -> bool {
    if n < 2 {
        false
    } else if n == 2 || n == 3 {
        true
    } else if n % 2 == 0 {
        false
    } else {
        forall|i: int| 0 <= i < mr_rounds(k)
            ==> (mr_bases()[i] as nat >= n
                || mr_base_accepts(n, odd_part((n - 1) as nat),
                    two_adic((n - 1) as nat), mr_bases()[i] as nat))
    }
}

/// The round count chosen for an operand bit length.
pub open spec fn rounds_for_bits(bits: nat) -> nat {
    if bits < 32 { 2 } else if bits < 64 { 3 } else if bits < 128 { 4 }
    else if bits < 256 { 5 } else { 6 }
}

/// What the primality tester accepts at a given bit length: at least two,
/// survival of trial division, and Miller-Rabin acceptance.
#[verifier::opaque]
pub open spec fn prime_test_accepts(n: nat, bits: nat) -> bool {
    n >= 2 && passes_trial_division(n) && mr_accepts(n, rounds_for_bits(bits))
}

/// Trial division by the fixed table: true when no table prime divides `n`
/// other than `n` itself.
#[verifier::rlimit(50)]
pub fn trial_division_ok(n: &U512) -> (r: bool)
    ensures
        r == passes_trial_division(n.as_nat()),
{
    proof {
        reveal(passes_trial_division);
    }
    let primes = small_primes();
    let ghost n0 = n.as_nat();
    for i in 0..primes.len()
        invariant
            primes@ == small_primes_seq(),
            n.as_nat() == n0,
            forall|ii: int| 0 <= ii < i
                ==> !(n0 % (small_primes_seq()[ii] as nat) == 0
                    && n0 != small_primes_seq()[ii]),
    {
        let p = primes[i];
        proof {
            reveal(passes_trial_division);
            assert(small_primes_seq()[i as int] >= 2);
        }
        let pv = U512::from_u64(p);
        if n.rem_u64(p) == 0 && n.cmp_with(&pv) != 0 {
            return false;
        }
    }
    proof {
        reveal(passes_trial_division);
    }
    true
}

/// Modular product of 512-bit values.
pub fn mul_mod(a: U512, b: U512, m: U512) -> (r: U512)
    requires
        m.as_nat() >= 1,
    ensures
        r.as_nat() == (a.as_nat() * b.as_nat()) % m.as_nat(),
{
    U512 { limbs: mulmod_limbs(&a.limbs, &b.limbs, &m.limbs) }
}

/// Modular exponentiation of 512-bit values.
pub fn mod_pow(base: U512, exp: U512, modulus: U512) -> (r: U512)
    requires
        modulus.as_nat() >= 1,
    ensures
        r.as_nat() as int
            == pow(base.as_nat() as int, exp.as_nat()) % modulus.as_nat() as int,
{
    U512 { limbs: powmod_limbs(&base.limbs, &exp.limbs, &modulus.limbs) }
}

/// Miller-Rabin with up to `k` of the deterministic witness bases.
pub fn miller_rabin(n: U512, k: u32) -> (r: bool)
    ensures
        r == mr_accepts(n.as_nat(), k as nat),
{
    let two = U512::from_u64(2);
    let three = U512::from_u64(3);
    if n.cmp_with(&two) < 0 {
        return false;
    }
    if n.cmp_with(&two) == 0 || n.cmp_with(&three) == 0 {
        return true;
    }
    if n.rem_u64(2) == 0 {
        return false;
    }
    let one = U512::from_u64(1);
    let (n_minus_1, _b) = n.overflowing_sub(one);
    let ghost n0 = n.as_nat();
    proof {
        assert(n_minus_1.as_nat() == n0 - 1);
    }
    // write n - 1 as d * 2^r with d odd
    let mut d = n_minus_1;
    let mut r: u32 = 0;
    proof {
        lemma_pow2_pos(0);
        assert(pow2(0) == 1) by { lemma2_to64(); }
    }
    proof {
        crate::limbs::lemma_lnat_bound(n.limbs@);
        assert(n0 < pow2(512));
    }
    while d.rem_u64(2) == 0
        invariant
            d.as_nat() >= 1,
            odd_part((n0 - 1) as nat) == odd_part(d.as_nat()),
            two_adic((n0 - 1) as nat) == two_adic(d.as_nat()) + r,
            (n0 - 1) as nat == d.as_nat() * pow2(r as nat),
            n0 >= 5,
            n0 < pow2(512),
            r <= 512,
        decreases d.as_nat(),
    {
        let ghost d0 = d.as_nat();
        proof {
            if r >= 512 {
                assert(pow2(r as nat) <= d.as_nat() * pow2(r as nat)) by (nonlinear_arith)
                    requires
                        d.as_nat() >= 1,
                        pow2(r as nat) > 0,
                ;
                if r as nat > 512 {
                    vstd::arithmetic::power2::lemma_pow2_strictly_increases(512, r as nat);
                }
                lemma_pow2_pos(r as nat);
                assert(false);
            }
        }
        d = d.shr1();
        r = r + 1;
        proof {
            lemma_fundamental_div_mod(d0 as int, 2);
            assert(d.as_nat() * 2 == d0);
            lemma_pow2_adds((r - 1) as nat, 1);
            assert(pow2(1) == 2) by { lemma2_to64(); }
            assert(d.as_nat() * pow2(r as nat) == (d.as_nat() * 2) * pow2((r - 1) as nat))
                by (nonlinear_arith)
                requires
                    pow2(r as nat) == pow2((r - 1) as nat) * pow2(1),
                    pow2(1) == 2,
            ;
        }
    }
    let ghost dv = d.as_nat();
    let ghost rv = r as nat;
    proof {
        assert(odd_part(dv) == dv);
        assert(two_adic(dv) == 0);
        assert(dv == odd_part((n0 - 1) as nat));
        assert(rv == two_adic((n0 - 1) as nat));
    }
    let bases: Vec<u64> = vec![2u64, 3, 5, 7, 11, 13, 17];
    proof {
        assert(bases@ =~= mr_bases());
    }
    let num_bases: usize = if k < 7 { k as usize } else { 7 };
    proof {
        assert(num_bases as nat == mr_rounds(k as nat));
    }
    for i in 0..num_bases
        invariant
            num_bases as nat == mr_rounds(k as nat),
            num_bases <= 7,
            bases@ == mr_bases(),
            dv == odd_part((n0 - 1) as nat) && rv == two_adic((n0 - 1) as nat),
            d.as_nat() == dv && n.as_nat() == n0,
            (n0 - 1) as nat == dv * pow2(rv),
            n0 >= 5 && n0 % 2 == 1,
            n_minus_1.as_nat() == n0 - 1,
            rv == r as nat,
            dv >= 1,
            forall|ii: int| 0 <= ii < i
                ==> (mr_bases()[ii] as nat >= n0
                    || mr_base_accepts(n0, dv, rv, mr_bases()[ii] as nat)),
    {
        let a = U512::from_u64(bases[i]);
        let ghost av = a.as_nat();
        if a.cmp_with(&n) >= 0 {
            proof {
                assert(mr_bases()[i as int] as nat >= n0);
            }
        } else {
            let one2 = U512::from_u64(1);
            let mut x = mod_pow(a, d, n);
            proof {
                lemma_small_mod(1, n0);
            }
            if x.cmp_with(&one2) == 0 || x.cmp_with(&n_minus_1) == 0 {
                proof {
                    if x.as_nat() == 1 {
                        assert(pow(av as int, dv) % (n0 as int) == 1int % (n0 as int));
                    } else {
                        assert(pow2(0) == 1) by { lemma2_to64(); }
                        assert(dv * pow2(0) == dv) by (nonlinear_arith)
                            requires
                                pow2(0) == 1,
                        ;
                        assert(rv >= 1) by {
                            assert((n0 - 1) as nat % 2 == 0);
                            assert(two_adic((n0 - 1) as nat)
                                == 1 + two_adic(((n0 - 1) as nat) / 2));
                        }
                        assert(pow(av as int, dv * pow2(0)) % (n0 as int) == n0 - 1);
                        assert(mr_base_accepts(n0, dv, rv, av)) by {
                            assert(0nat < rv && pow(av as int, dv * pow2(0nat))
                                % (n0 as int) == n0 - 1);
                        }
                    }
                }
            } else {
                // square up to r - 1 more times looking for n - 1
                let mut found = false;
                let mut j: u32 = 0;
                proof {
                    assert(pow2(0) == 1) by { lemma2_to64(); }
                    assert(dv * pow2(0) == dv) by (nonlinear_arith)
                        requires
                            pow2(0) == 1,
                    ;
                }
                while j + 1 < r && !found
                    invariant
                        j < r || (j == 0 && r == 0),
                        rv == r as nat,
                        n.as_nat() == n0 && n0 >= 5,
                        n_minus_1.as_nat() == n0 - 1,
                        dv >= 1,
                        x.as_nat() as int
                            == pow(av as int, dv * pow2(j as nat)) % (n0 as int),
                        !found ==> forall|jj: nat| jj <= j as nat
                            ==> pow(av as int, dv * pow2(jj)) % (n0 as int) != n0 - 1,
                        found ==> mr_base_accepts(n0, dv, rv, av),
                    decreases r - j,
                {
                    let ghost xv = x.as_nat() as int;
                    let ghost jv = j as nat;
                    let two2 = U512::from_u64(2);
                    x = mod_pow(x, two2, n);
                    j = j + 1;
                    proof {
                        // x^2 % n == a^(d * 2^(j+1)) % n
                        let nn = n0 as int;
                        let e = dv * pow2(jv);
                        lemma_pow_mod_noop(pow(av as int, e), 2, nn);
                        lemma_pow_multiplies(av as int, e, 2);
                        assert(pow(xv, 2) % nn == pow(pow(av as int, e), 2) % nn) by {
                            assert(xv == pow(av as int, e) % nn);
                        }
                        assert(e * 2 == dv * pow2(jv + 1)) by {
                            lemma_pow2_adds(jv, 1);
                            assert(pow2(1) == 2) by { lemma2_to64(); }
                            assert((dv * pow2(jv)) * 2 == dv * (pow2(jv) * 2))
                                by (nonlinear_arith);
                        }
                        assert(x.as_nat() as int == pow(av as int, dv * pow2(jv + 1)) % nn);
                    }
                    if x.cmp_with(&n_minus_1) == 0 {
                        found = true;
                        proof {
                            assert(jv + 1 < rv);
                            assert(mr_base_accepts(n0, dv, rv, av)) by {
                                assert(pow(av as int, dv * pow2(jv + 1)) % (n0 as int)
                                    == n0 - 1);
                            }
                        }
                    } else {
                        proof {
                            if !found {
                                assert forall|jj: nat| jj <= j as nat
                                    implies pow(av as int, dv * pow2(jj)) % (n0 as int)
                                        != n0 - 1 by {
                                    if jj < j as nat {
                                        assert(pow(av as int, dv * pow2(jj)) % (n0 as int)
                                            != n0 - 1);
                                    }
                                }
                            }
                        }
                    }
                }
                if !found {
                    proof {
                        assert(!mr_base_accepts(n0, dv, rv, av)) by {
                            assert(pow(av as int, dv) % (n0 as int) != 1int % (n0 as int))
                                by {
                                assert(pow2(0) == 1) by { lemma2_to64(); }
                                assert(dv * pow2(0) == dv) by (nonlinear_arith)
                                    requires
                                        pow2(0) == 1,
                                ;
                                lemma_small_mod(1, n0);
                            }
                            assert forall|jj: nat| jj < rv
                                implies pow(av as int, dv * pow2(jj)) % (n0 as int)
                                    != n0 - 1 by {
                                assert(j as nat + 1 >= rv);
                                assert(jj <= j as nat);
                            }
                        }
                    }
                    return false;
                }
                proof {
                    assert(mr_base_accepts(n0, dv, rv, mr_bases()[i as int] as nat));
                }
            }
        }
    }
    proof {
        assert(mr_accepts(n0, k as nat));
    }
    true
}

/// Trial division by the small-prime table, then Miller-Rabin with a round
/// count chosen from the bit length.
pub fn is_prime(n: U512, bits: u16) -> (r: bool)
    ensures
        r == prime_test_accepts(n.as_nat(), bits as nat),
{
    proof {
        reveal(prime_test_accepts);
    }
    let two = U512::from_u64(2);
    if n.cmp_with(&two) < 0 {
        return false;
    }
    if !trial_division_ok(&n) {
        return false;
    }
    let rounds: u32 = if bits < 32 { 2 } else if bits < 64 { 3 } else if bits < 128 { 4 }
        else if bits < 256 { 5 } else { 6 };
    proof {
        assert(rounds as nat == rounds_for_bits(bits as nat));
        assert(mr_rounds(rounds as nat) == rounds as nat);
    }
    miller_rabin(n, rounds)
}

} // verus!
