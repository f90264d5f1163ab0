use ee_experiment::ecc::{ecc_point_add, ecc_scalar_mult, EccCurve, Point, ECC, ECDH};
use ee_experiment::harness::{cycle_delta, TrialAccumulator};
use ee_experiment::helper::{
    exit, mod_inv, mod_inv_u256, u256_to_u512, u512_to_u256, MontCtxU256, MontCtxU512, U256, U512,
};
use ee_experiment::keygen::{generate_lookup_table, next_safe_prime, simple_rand};
use ee_experiment::primality::{is_prime, miller_rabin, mod_pow, mul_mod};
use ee_experiment::rsa::{KEY_TRANSPORT, RSA};
use ee_experiment::EngineError;

fn u256(x: u64) -> U256 {
    U256::from_u64(x)
}

fn u512(x: u64) -> U512 {
    U512::from_u64(x)
}

fn u512_val(v: &U512) -> u64 {
    assert!(v.limbs[1..].iter().all(|&l| l == 0));
    v.limbs[0]
}

fn u256_val(v: &U256) -> u64 {
    assert!(v.limbs[1..].iter().all(|&l| l == 0));
    v.limbs[0]
}

#[test]
fn known_primes_accepted() {
    for bits in [8u16, 40, 100, 300] {
        assert!(is_prime(u512(2), bits));
        assert!(is_prime(u512(3), bits));
        assert!(is_prime(u512(5), bits));
        assert!(is_prime(u512(97), bits));
        assert!(is_prime(u512(65537), bits));
    }
}

#[test]
fn known_composites_rejected() {
    for bits in [8u16, 40, 100, 300] {
        assert!(!is_prime(u512(4), bits));
        assert!(!is_prime(u512(100), bits));
        assert!(!is_prime(u512(561), bits));
    }
}

#[test]
fn composite_beyond_trial_division_rejected() {
    // 10403 == 101 * 103 has no factor in the trial table
    assert!(!is_prime(u512(10403), 16));
    assert!(is_prime(u512(10391), 16));
    assert!(!miller_rabin(u512(10403), 7));
}

#[test]
fn mod_pow_and_mul_mod_values() {
    assert_eq!(u512_val(&mod_pow(u512(3), u512(5), u512(7))), 5);
    assert_eq!(u512_val(&mod_pow(u512(2), u512(10), u512(1000))), 24);
    assert_eq!(u512_val(&mul_mod(u512(123456), u512(654321), u512(1000003))), 611039);
    assert_eq!(u512_val(&mul_mod(u512(5), u512(6), u512(1))), 0);
}

#[test]
fn montgomery_round_trip_u512() {
    // from_mont(to_mont(a)) == a, and products land on (a*b) mod n
    let n = u512(1_000_003);
    let ctx = MontCtxU512::new(n);
    for (a, b) in [(3u64, 5u64), (999_999, 1_000_002), (0, 7), (65537, 65537)] {
        let ta = ctx.to_mont(u512(a));
        let tb = ctx.to_mont(u512(b));
        let m = ctx.mont_mul(ta, tb);
        let f = ctx.from_mont(m);
        assert_eq!(u512_val(&f), (a as u128 * b as u128 % 1_000_003) as u64);
        let back = ctx.from_mont(ctx.to_mont(u512(a)));
        assert_eq!(u512_val(&back), a);
    }
}

#[test]
fn montgomery_round_trip_u256() {
    let n = u256(97);
    let ctx = MontCtxU256::new(n);
    let ta = ctx.to_mont(u256(13));
    let tb = ctx.to_mont(u256(22));
    let m = ctx.mont_mul(ta, tb);
    let f = ctx.from_mont(m);
    assert_eq!(u256_val(&f), 13 * 22 % 97);
    assert_eq!(u256_val(&ctx.mont_add(u256(90), u256(10))), 3);
    assert_eq!(u256_val(&ctx.mont_sub(u256(5), u256(10))), 92);
}

#[test]
fn modular_inverse_values() {
    // mod_inv(a, m) * a == 1 (mod m) whenever gcd(a, m) == 1
    let r = mod_inv(u512(3), u512(7));
    assert_eq!(u512_val(&r), 5);
    let r2 = mod_inv(u512(65537), u512(1_000_003 - 1));
    let prod = mul_mod(r2, u512(65537), u512(1_000_002));
    assert_eq!(u512_val(&prod), 1);
    let r3 = mod_inv_u256(u256(7), u256(40));
    assert_eq!(u256_val(&r3), 23);
    assert!(ee_experiment::ecc::mod_inverse_u256(u256(4), u256(8)).is_none());
}

#[test]
fn fixed_width_arithmetic() {
    let (s, c) = u512(u64::MAX).overflowing_add(u512(1));
    assert_eq!(s.limbs[0], 0);
    assert_eq!(s.limbs[1], 1);
    assert!(!c);
    let (d, b) = u512(3).overflowing_sub(u512(5));
    assert!(b);
    assert_eq!(d.limbs[0], u64::MAX - 1);
    let (q, r) = u512(1000).div_rem(u512(7));
    assert_eq!(u512_val(&q), 142);
    assert_eq!(u512_val(&r), 6);
    assert_eq!(u512(1000).rem_u64(7), 6);
    assert_eq!(u512_val(&u512(7).shr1()), 3);
    assert_eq!(u512_val(&u512(6).make_odd()), 7);
    assert_eq!(u512_val(&u512(7).make_odd()), 7);
    let w = u256_to_u512(u256(12345));
    assert_eq!(u512_val(&w), 12345);
    let t = u512_to_u256(w);
    assert_eq!(u256_val(&t), 12345);
}

#[test]
fn scalar_mult_zero_gives_infinity() {
    // scalar 0 lands on the (0, 0) sentinel for any curve and generator
    let g = Point { x: u256(3), y: u256(6) };
    let curve = EccCurve { a: u256(2), b: u256(3), p: u256(97), generator: g };
    let r = ecc_scalar_mult(u256(0), &g, &curve);
    assert_eq!(u256_val(&r.x), 0);
    assert_eq!(u256_val(&r.y), 0);
}

#[test]
fn point_add_edge_cases() {
    let g = Point { x: u256(3), y: u256(6) };
    let inf = Point { x: u256(0), y: u256(0) };
    let curve = EccCurve { a: u256(2), b: u256(3), p: u256(97), generator: g };
    let r1 = ecc_point_add(&inf, &g, &curve);
    assert_eq!(u256_val(&r1.x), 3);
    assert_eq!(u256_val(&r1.y), 6);
    let r2 = ecc_point_add(&g, &inf, &curve);
    assert_eq!(u256_val(&r2.x), 3);
    let mirror = Point { x: u256(3), y: u256(91) };
    let r3 = ecc_point_add(&g, &mirror, &curve);
    assert_eq!(u256_val(&r3.x), 0);
    assert_eq!(u256_val(&r3.y), 0);
    let one = ecc_scalar_mult(u256(1), &g, &curve);
    assert_eq!(u256_val(&one.x), 3);
    assert_eq!(u256_val(&one.y), 6);
}

#[test]
fn safe_prime_search_eight_bits() {
    // walk from 100: the first safe prime in [128, 255] is 167 == 2*83 + 1
    let p = next_safe_prime(u512(100), 8, u512(128), u512(255)).unwrap();
    assert_eq!(u512_val(&p), 167);
    assert!(is_prime(p, 8));
    assert!(is_prime(u512(83), 7));
}

#[test]
fn lcg_step_value() {
    let mut seed = u512(1);
    let r = simple_rand(&mut seed, u512(1000));
    assert_eq!(u512_val(&r), 412);
    assert_eq!(u512_val(&seed), 412);
}

#[test]
fn generator_is_deterministic() {
    // the same seed and bit range give byte-identical lookup cells
    let t1 = generate_lookup_table(958745, 16, 16, 2).unwrap();
    let t2 = generate_lookup_table(958745, 16, 16, 2).unwrap();
    assert_eq!(t1.len(), 2);
    assert!(t1 == t2);
    assert_eq!(t1[0].bits, 16);
}

#[test]
fn protocol_rounds_agree_on_generated_cells() {
    // every generated cell passes both the ECDH agreement and the RSA
    // key-transport round trip
    let table = generate_lookup_table(958745, 16, 24, 1).unwrap();
    assert_eq!(table.len(), 2);
    for cell in table {
        assert!(ECDH(cell.ecc));
        assert_eq!(KEY_TRANSPORT(cell.rsa), Ok(true));
    }
}

#[test]
fn cycle_counter_wraps() {
    assert_eq!(cycle_delta(10, 25), 15);
    assert_eq!(cycle_delta(u32::MAX - 1, 3), 5);
    let mut acc = TrialAccumulator::new();
    acc.record(true, 100, false, 200);
    acc.record(true, 50, true, 100);
    let r = acc.finalize(2);
    assert_eq!(r.avg_ecc_cycles, 75);
    assert_eq!(r.avg_rsa_cycles, 150);
    assert_eq!(r.ecc_failures, 0);
    assert_eq!(r.rsa_failures, 1);
}

#[test]
fn pow_mod_zero_exponent_yields_zero() {
    // the device-side windowed scan never starts on an all-zero exponent
    let ctx = MontCtxU512::new(u512(1_000_003));
    let r = ee_experiment::rsa::pow_mod(u512(5), u512(0), &ctx);
    assert_eq!(u512_val(&r), 0);
    let r1 = ee_experiment::rsa::pow_mod(u512(5), u512(3), &ctx);
    assert_eq!(u512_val(&r1), 125);
}

#[test]
fn key_transport_error_variants() {
    let even = RSA {
        session_key: u512(5),
        modulus: u512(10),
        totient: u512(4),
        exponent: u256(3),
        private_key: u512(0),
    };
    assert_eq!(KEY_TRANSPORT(even), Err(EngineError::DegenerateModulus));
    let shared_factor = RSA {
        session_key: u512(5),
        modulus: u512(9),
        totient: u512(6),
        exponent: u256(3),
        private_key: u512(0),
    };
    assert_eq!(KEY_TRANSPORT(shared_factor), Err(EngineError::NoInverse));
    let zero_totient = RSA {
        session_key: u512(5),
        modulus: u512(9),
        totient: u512(0),
        exponent: u256(5),
        private_key: u512(0),
    };
    assert_eq!(KEY_TRANSPORT(zero_totient), Err(EngineError::NoInverse));
}

#[test]
fn safe_prime_search_is_deterministic() {
    // the search is a pure function of its arguments
    let a = next_safe_prime(u512(100), 8, u512(128), u512(255));
    let b = next_safe_prime(u512(100), 8, u512(128), u512(255));
    assert_eq!(a, b);
    assert!(next_safe_prime(u512(0), 8, u512(4), u512(5)).is_none());
}

#[test]
fn generated_exponent_is_standard() {
    let t = generate_lookup_table(958745, 16, 16, 1).unwrap();
    assert_eq!(u256_val(&t[0].rsa.exponent), 65537);
}

#[test]
fn exit_diagnostic_line() {
    assert_eq!(exit(), "Exiting...\n");
}
