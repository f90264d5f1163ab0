//! A repeatable stream of large safe primes: a seeded ChaCha generator fed
//! to an outside safe-prime sampler, so that equal seeds give equal streams.

use vstd::prelude::*;

verus! {

use rand_chacha::rand_core::SeedableRng;

/// The outside deterministic generator type, opaque to the verifier.
#[verifier::external_type_specification]
#[verifier::external_body]
pub struct ExChaCha20Rng(rand_chacha::ChaCha20Rng);

/// The outside big-integer type, opaque to the verifier.
#[verifier::external_type_specification]
#[verifier::external_body]
pub struct ExBigUint(num_bigint::BigUint);

/// Relies on rand_chacha's ChaCha20Rng::from_seed: the generator state is a
/// pure function of the 32 seed bytes.
#[verifier::external_body]
fn chacha_from_seed(seed_bytes: [u8; 32]) -> rand_chacha::ChaCha20Rng {
    rand_chacha::ChaCha20Rng::from_seed(seed_bytes)
}

/// Relies on glass_pumpkin's safe_prime::from_rng: it fails exactly when
/// the requested bit length is under 128, and otherwise draws candidates
/// from the generator until one passes its safe-prime tests.
#[verifier::external_body]
fn gen_safe_prime(bits: usize, rng: &mut rand_chacha::ChaCha20Rng)
    -> (r: Option<num_bigint::BigUint>)
    ensures
        r is Some <==> bits >= 128,
{
    glass_pumpkin::safe_prime::from_rng(bits, rng).ok()
}

/// A repeatable stream of safe primes of a fixed bit length, from a seed.
pub struct SeededStream {
    pub rng: rand_chacha::ChaCha20Rng,
    pub bits: usize,
}

impl SeededStream {
    /// Build the stream: the seed is spread over the low bytes of the
    /// 32-byte generator seed, little end first.
    pub fn new(bits: usize, seed: u64) -> (r: SeededStream)
        ensures
            r.bits == bits,
    {
        let mut seed_bytes: [u8; 32] = [0u8; 32];
        let mut i: usize = 0;
        while i < 8
            invariant
                i <= 8,
            decreases 8 - i,
        {
            proof {
                vstd::bits::lemma_u64_shr_is_div(seed, (8 * i) as u64);
            }
            seed_bytes[i] = #[verifier::truncate] ((seed >> ((8 * i) as u64)) as u8);
            i = i + 1;
        }
        let rng = chacha_from_seed(seed_bytes);
        SeededStream { rng, bits }
    }

    /// Draw the next safe prime; the stream only fails for bit lengths the
    /// sampler refuses.
    pub fn next(&mut self) -> (r: Option<num_bigint::BigUint>)
        ensures
            r is Some <==> old(self).bits >= 128,
            final(self).bits == old(self).bits,
    {
        let bits = self.bits;
        gen_safe_prime(bits, &mut self.rng)
    }
}

} // verus!
