//! The RSA key-transport round: modular exponentiation against a
//! Montgomery context's modulus, and the encrypt/decrypt round trip that
//! checks whether the session key is recovered.

use vstd::prelude::*;

verus! {

use vstd::arithmetic::power::pow;
use crate::helper::{U256, U512, u256_to_u512, MontCtxU512};
use crate::modmath::{gcd, powmod_limbs, inv_mod_limbs};
use crate::ecc::{inv_mod_spec, lemma_inv_unique};
use crate::EngineError;

/// One RSA key set: the session key to transport, the modulus, its totient,
/// the public exponent and the stored private exponent.
#[derive(Clone, Copy, PartialEq, Eq)]
pub struct RSA {
    pub session_key: U512,
    pub modulus: U512,
    pub totient: U512,
    pub exponent: U256,
    pub private_key: U512,
}

/// Modular exponentiation against the context's modulus by
/// square-and-multiply over the exponent bits. A zero exponent yields
/// zero: the device-side scan never starts on an all-zero exponent, and
/// that convention is kept here.
pub fn pow_mod(base: U512, exp: U512, ctx: &MontCtxU512) -> (r: U512)
    requires
        ctx.wf(),
    ensures
        exp.as_nat() == 0 ==> r.as_nat() == 0,
        exp.as_nat() > 0 ==> r.as_nat() as int
            == pow(base.as_nat() as int, exp.as_nat()) % ctx.n.as_nat() as int,
{
    if exp.is_zero() {
        return U512::from_u64(0);
    }
    U512 { limbs: powmod_limbs(&base.limbs, &exp.limbs, &ctx.n.limbs) }
}

/// The RSA round trip on one key set: recompute the private exponent from
/// the stored totient, encrypt the session key with the public exponent,
/// decrypt with the private one, and compare. A modulus the Montgomery
/// path cannot take or a missing inverse is a fatal fault.
#[allow(non_snake_case)]
pub fn KEY_TRANSPORT(rsa: RSA) -> (res: Result<bool, EngineError>)
    ensures
        ({
            let n = rsa.modulus.as_nat();
            let tot = rsa.totient.as_nat();
            let e = rsa.exponent.as_nat();
            let s = rsa.session_key.as_nat();
            &&& ((n < 3 || n % 2 == 0) <==> res == Result::<bool, EngineError>::Err(
                EngineError::DegenerateModulus))
            &&& (n >= 3 && n % 2 == 1 && (tot < 1 || gcd(e, tot) != 1)
                <==> res == Result::<bool, EngineError>::Err(EngineError::NoInverse))
            &&& ((n >= 3 && n % 2 == 1 && tot >= 1 && gcd(e, tot) == 1) <==> res is Ok)
            &&& (res is Ok ==> {
                let d = inv_mod_spec(e, tot);
                let encrypted = if e == 0 { 0int } else { pow(s as int, e) % (n as int) };
                let decrypted = if d == 0 { 0int } else { pow(encrypted, d) % (n as int) };
                res == Result::<bool, EngineError>::Ok(decrypted == s as int)
            })
        }),
{
    let three = U512::from_u64(3);
    if rsa.modulus.cmp_with(&three) < 0 || rsa.modulus.rem_u64(2) == 0 {
        return Err(EngineError::DegenerateModulus);
    }
    if rsa.totient.is_zero() {
        return Err(EngineError::NoInverse);
    }
    let ctx = MontCtxU512::new(rsa.modulus);
    let ew = u256_to_u512(rsa.exponent);
    let inv = inv_mod_limbs(&ew.limbs, &rsa.totient.limbs);
    let private_key: U512;
    match inv {
        None => {
            return Err(EngineError::NoInverse);
        },
        Some(x) => {
            private_key = U512 { limbs: x };
        },
    }
    proof {
        let tot = rsa.totient.as_nat();
        let e = rsa.exponent.as_nat();
        let w = choose|x: nat| x < tot && #[trigger] ((e * x) % tot) == 1nat % tot;
        assert((e * private_key.as_nat()) % tot == 1nat % tot);
        if tot >= 2 {
            lemma_inv_unique(e, tot, w, private_key.as_nat());
        } else {
            // modulo one, zero is the canonical inverse, which the
            // computation also returns
            assert((e * 0) % 1nat == 1nat % 1nat) by {
                assert(e * 0 == 0) by (nonlinear_arith);
            }
            lemma_inv_unique(e, tot, w, 0);
            assert(private_key.as_nat() == 0);
        }
        assert(private_key.as_nat() == inv_mod_spec(e, tot));
        // a reduced inverse is zero only when the totient is one
        if tot >= 2 && private_key.as_nat() == 0 {
            assert((e * 0) % tot == 1nat % tot);
            assert(e * 0 == 0) by (nonlinear_arith);
            vstd::arithmetic::div_mod::lemma_small_mod(1, tot);
            vstd::arithmetic::div_mod::lemma_small_mod(0, tot);
            assert(false);
        }
    }
    let encrypted = pow_mod(rsa.session_key, ew, &ctx);
    let decrypted = pow_mod(encrypted, private_key, &ctx);
    Ok(decrypted.eq_value(&rsa.session_key))
}

} // verus!
