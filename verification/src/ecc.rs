//! Elliptic-curve arithmetic over a short Weierstrass curve: affine point
//! addition and doubling, double-and-add scalar multiplication, and the
//! two-party ECDH agreement check. The pair (0, 0) is the infinity sentinel.

use vstd::prelude::*;

verus! {

use vstd::arithmetic::power2::pow2;
use vstd::arithmetic::div_mod::{
    lemma_small_mod, lemma_mod_division_less_than_divisor, lemma_mul_mod_noop_right,
};
use crate::helper::{U256, U512, u512_to_u256, u256_to_u512};
use crate::modmath::{gcd, mulmod_limbs, inv_mod_limbs};

/// An affine point; (0, 0) stands for the point at infinity.
#[derive(Clone, Copy, PartialEq, Eq)]
pub struct Point {
    pub x: U256,
    pub y: U256,
}

/// A short Weierstrass curve y^2 = x^3 + ax + b over the prime field mod p,
/// with a chosen generator point.
#[derive(Clone, Copy, PartialEq, Eq)]
pub struct EccCurve {
    pub a: U256,
    pub b: U256,
    pub p: U256,
    pub generator: Point,
}

/// One ECC key set: the curve, two private scalars and their public points.
#[derive(Clone, Copy, PartialEq, Eq)]
pub struct ECC {
    pub curve: EccCurve,
    pub private_key1: U256,
    pub public_key1: Point,
    pub private_key2: U256,
    pub public_key2: Point,
}

/// Modular product of 256-bit values.
pub fn mul_mod_u256(a: U256, b: U256, m: U256) -> (r: U256)
    requires
        m.as_nat() >= 1,
    ensures
        r.as_nat() == (a.as_nat() * b.as_nat()) % m.as_nat(),
{
    U256 { limbs: mulmod_limbs(&a.limbs, &b.limbs, &m.limbs) }
}

/// Modular inverse of a 256-bit value when one exists.
pub fn mod_inverse_u256(a: U256, m: U256) -> (r: Option<U256>)
    requires
        m.as_nat() >= 1,
    ensures
        r is Some <==> gcd(a.as_nat(), m.as_nat()) == 1,
        match r {
            Some(x) => x.as_nat() <= m.as_nat()
                && (m.as_nat() >= 2 ==> x.as_nat() < m.as_nat())
                && (a.as_nat() * x.as_nat()) % m.as_nat() == 1nat % m.as_nat(),
            None => true,
        },
{
    let res = inv_mod_limbs(&a.limbs, &m.limbs);
    match res {
        Some(x) => {
            proof {
                crate::limbs::lemma_lnat_bound(m.limbs@);
            }
            Some(U256 { limbs: x })
        },
        None => None,
    }
}

/// The modular inverse as a value: meaningful whenever one exists.
pub open spec fn inv_mod_spec(a: nat, m: nat) -> nat {
    choose|x: nat| x < m && #[trigger] ((a * x) % m) == 1nat % m
}

/// Inverses are unique below the modulus.
pub proof fn lemma_inv_unique(a: nat, m: nat, x: nat, y: nat)
    requires
        m >= 1,
        x < m,
        y < m,
        (a * x) % m == 1nat % m,
        (a * y) % m == 1nat % m,
    ensures
        x == y,
{
    let mi = m as int;
    let ai = a as int;
    let xi = x as int;
    let yi = y as int;
    // x == x * (a*y) == (x*a) * y == y  (mod m)
    lemma_mul_mod_noop_right(xi, ai * yi, mi);
    lemma_mul_mod_noop_right(yi, ai * xi, mi);
    assert(xi * (ai * yi) == yi * (ai * xi)) by (nonlinear_arith);
    assert((xi * ((ai * yi) % mi)) % mi == (yi * ((ai * xi) % mi)) % mi);
    assert((xi * (1int % mi)) % mi == (yi * (1int % mi)) % mi);
    if m == 1 {
        assert(x == 0 && y == 0);
    } else {
        lemma_small_mod(1, m);
        assert(xi * 1 == xi && yi * 1 == yi);
        lemma_small_mod(x, m);
        lemma_small_mod(y, m);
    }
}

/// The original's folded difference: `u - v` pulled into the field range
/// the way the engine computes it.
pub open spec fn fold_sub(u: nat, v: nat, p: nat) -> nat {
    if u >= v {
        (u - v) as nat % p
    } else {
        (p - ((v - u) as nat % p)) as nat
    }
}

/// Affine point addition over the curve, exactly as the engine computes it.
pub open spec fn spec_point_add(
    x1: nat, y1: nat, x2: nat, y2: nat, a: nat, p: nat) -> (nat, nat) {
    if x1 == 0 && y1 == 0 {
        (x2, y2)
    } else if x2 == 0 && y2 == 0 {
        (x1, y1)
    } else if x1 == x2 && y1 != y2 {
        (0, 0)
    } else if x1 == x2 {
        // doubling: slope = (3 x1^2 + a) / (2 y1)
        let num = ((3 * ((x1 * x1) % p)) % p + a) % p;
        let den = (2 * y1) % p;
        if gcd(den, p) != 1 {
            (0, 0)
        } else {
            let slope = (num * inv_mod_spec(den, p)) % p;
            let slope_sq = (slope * slope) % p;
            let two_x1 = (2 * x1) % p;
            let x3 = fold_sub(slope_sq, two_x1, p);
            let y3 = fold_sub((slope * fold_sub(x1, x3, p)) % p, y1, p);
            (x3, y3)
        }
    } else {
        // chord: slope = (y2 - y1) / (x2 - x1)
        let num = fold_sub(y2, y1, p);
        let den = fold_sub(x2, x1, p);
        if gcd(den, p) != 1 {
            (0, 0)
        } else {
            let slope = (num * inv_mod_spec(den, p)) % p;
            let slope_sq = (slope * slope) % p;
            let sum = (x1 + x2) % p;
            let x3 = fold_sub(slope_sq, sum, p);
            let y3 = fold_sub((slope * fold_sub(x1, x3, p)) % p, y1, p);
            (x3, y3)
        }
    }
}

/// The tail of a double-and-add walk: what the loop still folds into the
/// running result, scanning the scalar from its least significant bit.
pub open spec fn spec_add_chain(
    s: nat, ax: nat, ay: nat, rx: nat, ry: nat, a: nat, p: nat) -> (nat, nat)
    decreases s,
{
    if s == 0 {
        (rx, ry)
    } else {
        let r2 = if s % 2 == 1 {
            spec_point_add(rx, ry, ax, ay, a, p)
        } else {
            (rx, ry)
        };
        let dbl = spec_point_add(ax, ay, ax, ay, a, p);
        spec_add_chain(s / 2, dbl.0, dbl.1, r2.0, r2.1, a, p)
    }
}

/// Double-and-add scalar multiplication: the walk started from the
/// infinity sentinel.
pub open spec fn spec_scalar_mult(
    k: nat, px: nat, py: nat, a: nat, p: nat) -> (nat, nat)
{
    spec_add_chain(k, px, py, 0, 0, a, p)
}

/// The folded difference as the engine computes it.
fn fold_sub_exec(u: U256, v: U256, p: U256) -> (r: U256)
    requires
        p.as_nat() >= 1,
    ensures
        r.as_nat() == fold_sub(u.as_nat(), v.as_nat(), p.as_nat()),
{
    let ghost pp = p.as_nat();
    if u.cmp_with(&v) >= 0 {
        let (d, _b) = u.overflowing_sub(v);
        let (_q, rm) = d.div_rem(p);
        rm
    } else {
        let (d, _b) = v.overflowing_sub(u);
        let (_q, rm) = d.div_rem(p);
        let (r, _b2) = p.overflowing_sub(rm);
        proof {
            lemma_mod_division_less_than_divisor(
                (v.as_nat() - u.as_nat()) as int, pp as int);
        }
        r
    }
}

/// Affine point addition: infinity is absorbing, mirror points cancel,
/// equal points double, distinct points follow the chord formula. A
/// denominator with no inverse folds to the infinity sentinel, the
/// generator-side fallback; the on-target engine treats that case as a
/// fatal fault instead, which its driver decides.
pub fn ecc_point_add(p1: &Point, p2: &Point, curve: &EccCurve) -> (r: Point)
    requires
        curve.p.as_nat() >= 2,
    ensures
        (r.x.as_nat(), r.y.as_nat()) == spec_point_add(
            p1.x.as_nat(), p1.y.as_nat(), p2.x.as_nat(), p2.y.as_nat(),
            curve.a.as_nat(), curve.p.as_nat()),
{
    let ghost pp = curve.p.as_nat();
    let ghost aa = curve.a.as_nat();
    if p1.x.is_zero() && p1.y.is_zero() {
        return Point { x: p2.x, y: p2.y };
    }
    if p2.x.is_zero() && p2.y.is_zero() {
        return Point { x: p1.x, y: p1.y };
    }
    if p1.x.cmp_with(&p2.x) == 0 {
        if p1.y.cmp_with(&p2.y) != 0 {
            return Point { x: U256::from_u64(0), y: U256::from_u64(0) };
        }
        let three = U256::from_u64(3);
        let two = U256::from_u64(2);
        let xsq = mul_mod_u256(p1.x, p1.x, curve.p);
        let num0 = mul_mod_u256(three, xsq, curve.p);
        // the numerator sum is taken through the double width to stay exact
        let nw0 = u256_to_u512(num0);
        let aw = u256_to_u512(curve.a);
        let (nw1, cw) = nw0.overflowing_add(aw);
        proof {
            crate::limbs::lemma_lnat_bound(num0.limbs@);
            crate::limbs::lemma_lnat_bound(curve.a.limbs@);
            assert(!cw) by {
                vstd::arithmetic::power2::lemma_pow2_adds(256, 256);
                vstd::arithmetic::power2::lemma2_to64();
                vstd::arithmetic::power2::lemma_pow2_strictly_increases(1, 256);
                assert(pow2(256) + pow2(256) <= pow2(512)) by (nonlinear_arith)
                    requires
                        pow2(512) == pow2(256) * pow2(256),
                        pow2(256) >= 2,
                ;
            }
        }
        let pw = u256_to_u512(curve.p);
        let (_q, numw) = nw1.div_rem(pw);
        let num = u512_to_u256(numw);
        proof {
            lemma_mod_division_less_than_divisor(
                (num0.as_nat() + curve.a.as_nat()) as int, pp as int);
            crate::limbs::lemma_lnat_bound(curve.p.limbs@);
            lemma_small_mod(numw.as_nat(), pow2(256));
        }
        let denominator = mul_mod_u256(two, p1.y, curve.p);
        let inv = mod_inverse_u256(denominator, curve.p);
        match inv {
            None => {
                return Point { x: U256::from_u64(0), y: U256::from_u64(0) };
            },
            Some(denom_inv) => {
                proof {
                    // the computed inverse is the spec inverse
                    let dn = denominator.as_nat();
                    assert(denom_inv.as_nat() < pp);
                    assert(denom_inv.as_nat() == inv_mod_spec(dn, pp)) by {
                        let w = choose|x: nat| x < pp
                            && #[trigger] ((dn * x) % pp) == 1nat % pp;
                        assert((dn * denom_inv.as_nat()) % pp == 1nat % pp);
                        lemma_inv_unique(dn, pp, w, denom_inv.as_nat());
                    }
                }
                let slope = mul_mod_u256(num, denom_inv, curve.p);
                let slope_sq = mul_mod_u256(slope, slope, curve.p);
                let two_x1 = mul_mod_u256(two, p1.x, curve.p);
                let x3 = fold_sub_exec(slope_sq, two_x1, curve.p);
                let xd = fold_sub_exec(p1.x, x3, curve.p);
                let sm = mul_mod_u256(slope, xd, curve.p);
                let y3 = fold_sub_exec(sm, p1.y, curve.p);
                return Point { x: x3, y: y3 };
            },
        }
    }
    let num = fold_sub_exec(p2.y, p1.y, curve.p);
    let den = fold_sub_exec(p2.x, p1.x, curve.p);
    let inv = mod_inverse_u256(den, curve.p);
    match inv {
        None => Point { x: U256::from_u64(0), y: U256::from_u64(0) },
        Some(denom_inv) => {
            proof {
                let dn = den.as_nat();
                assert(denom_inv.as_nat() < pp);
                assert(denom_inv.as_nat() == inv_mod_spec(dn, pp)) by {
                    let w = choose|x: nat| x < pp
                        && #[trigger] ((dn * x) % pp) == 1nat % pp;
                    assert((dn * denom_inv.as_nat()) % pp == 1nat % pp);
                    lemma_inv_unique(dn, pp, w, denom_inv.as_nat());
                }
            }
            let slope = mul_mod_u256(num, denom_inv, curve.p);
            let slope_sq = mul_mod_u256(slope, slope, curve.p);
            let xw1 = u256_to_u512(p1.x);
            let xw2 = u256_to_u512(p2.x);
            let (sw, cw) = xw1.overflowing_add(xw2);
            proof {
                crate::limbs::lemma_lnat_bound(p1.x.limbs@);
                crate::limbs::lemma_lnat_bound(p2.x.limbs@);
                assert(!cw) by {
                    vstd::arithmetic::power2::lemma_pow2_adds(256, 256);
                    assert(pow2(256) + pow2(256) <= pow2(512)) by (nonlinear_arith)
                        requires
                            pow2(512) == pow2(256) * pow2(256),
                            pow2(256) >= 2,
                    ;
                    vstd::arithmetic::power2::lemma2_to64();
                }
            }
            let pw = u256_to_u512(curve.p);
            let (_q, sumw) = sw.div_rem(pw);
            let sum = u512_to_u256(sumw);
            proof {
                lemma_mod_division_less_than_divisor(
                    (p1.x.as_nat() + p2.x.as_nat()) as int, pp as int);
                crate::limbs::lemma_lnat_bound(curve.p.limbs@);
                lemma_small_mod(sumw.as_nat(), pow2(256));
            }
            let x3 = fold_sub_exec(slope_sq, sum, curve.p);
            let xd = fold_sub_exec(p1.x, x3, curve.p);
            let sm = mul_mod_u256(slope, xd, curve.p);
            let y3 = fold_sub_exec(sm, p1.y, curve.p);
            Point { x: x3, y: y3 }
        },
    }
}

/// Double-and-add scalar multiplication from the least significant bit.
pub fn ecc_scalar_mult(k: U256, point: &Point, curve: &EccCurve) -> (r: Point)
    requires
        curve.p.as_nat() >= 2,
    ensures
        (r.x.as_nat(), r.y.as_nat()) == spec_scalar_mult(
            k.as_nat(), point.x.as_nat(), point.y.as_nat(),
            curve.a.as_nat(), curve.p.as_nat()),
        k.as_nat() == 0 ==> r.x.as_nat() == 0 && r.y.as_nat() == 0,
{
    let ghost pp = curve.p.as_nat();
    let ghost aa = curve.a.as_nat();
    if k.is_zero() {
        return Point { x: U256::from_u64(0), y: U256::from_u64(0) };
    }
    let mut result = Point { x: U256::from_u64(0), y: U256::from_u64(0) };
    let mut addend = Point { x: point.x, y: point.y };
    let mut scalar = k;
    let ghost kx = k.as_nat();
    let ghost px = point.x.as_nat();
    let ghost py = point.y.as_nat();
    while !scalar.is_zero()
        invariant
            curve.p.as_nat() == pp && curve.a.as_nat() == aa && pp >= 2,
            spec_scalar_mult(kx, px, py, aa, pp) == spec_add_chain(
                scalar.as_nat(), addend.x.as_nat(), addend.y.as_nat(),
                result.x.as_nat(), result.y.as_nat(), aa, pp),
        decreases scalar.as_nat(),
    {
        let ghost s0 = scalar.as_nat();
        let odd = crate::divide::bit_limbs(&scalar.limbs, 0);
        proof {
            assert(pow2(0) == 1) by { vstd::arithmetic::power2::lemma2_to64(); }
            vstd::arithmetic::div_mod::lemma_fundamental_div_mod_converse(
                s0 as int, 1, s0 as int, 0);
        }
        if odd {
            result = ecc_point_add(&result, &addend, curve);
        }
        let doubled = ecc_point_add(&addend, &addend, curve);
        addend = doubled;
        scalar = U256 { limbs: crate::limbs::shr1_limbs(&scalar.limbs) };
        proof {
            vstd::arithmetic::div_mod::lemma_fundamental_div_mod(s0 as int, 2);
        }
    }
    proof {
        assert(spec_add_chain(0, addend.x.as_nat(), addend.y.as_nat(),
            result.x.as_nat(), result.y.as_nat(), aa, pp)
            == (result.x.as_nat(), result.y.as_nat()));
    }
    result
}

/// Two-party key agreement over one generated key set: both public keys are
/// derived, both shared secrets computed, and their x-coordinates compared.
#[allow(non_snake_case)]
pub fn ECDH(data: ECC) -> (r: bool)
    requires
        data.curve.p.as_nat() >= 2,
    ensures
        ({
            let aa = data.curve.a.as_nat();
            let pp = data.curve.p.as_nat();
            let gx = data.curve.generator.x.as_nat();
            let gy = data.curve.generator.y.as_nat();
            let k1 = data.private_key1.as_nat();
            let k2 = data.private_key2.as_nat();
            let pub1 = spec_scalar_mult(k1, gx, gy, aa, pp);
            let pub2 = spec_scalar_mult(k2, gx, gy, aa, pp);
            let s1 = spec_scalar_mult(k1, pub2.0, pub2.1, aa, pp);
            let s2 = spec_scalar_mult(k2, pub1.0, pub1.1, aa, pp);
            r == (s1.0 == s2.0)
        }),
{
    let public_key1 = ecc_scalar_mult(data.private_key1, &data.curve.generator, &data.curve);
    let public_key2 = ecc_scalar_mult(data.private_key2, &data.curve.generator, &data.curve);
    let shared_secret1 = ecc_scalar_mult(data.private_key1, &public_key2, &data.curve);
    let shared_secret2 = ecc_scalar_mult(data.private_key2, &public_key1, &data.curve);
    shared_secret1.x.cmp_with(&shared_secret2.x) == 0
}

} // verus!
