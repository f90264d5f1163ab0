//! A deterministic public-key-cryptography benchmark engine.
//!
//! The crate provides fixed-width 256-bit and 512-bit unsigned integers,
//! modular and Montgomery-domain arithmetic, Miller-Rabin primality
//! testing, safe-prime search, elliptic-curve and RSA protocol rounds,
//! and the deterministic key-material generator that feeds them.

pub mod divide;
pub mod ecc;
pub mod harness;
pub mod helper;
pub mod keygen;
pub mod limbs;
pub mod modmath;
pub mod mont;
pub mod primality;
pub mod rsa;
pub mod stream;

use vstd::prelude::*;

verus! {

/// The fatal-fault taxonomy of the engine: a missing modular inverse, a
/// degenerate modulus handed to the Montgomery path, or an exhausted
/// safe-prime search budget.
#[derive(Clone, Copy, PartialEq, Eq, Structural, Debug)]
pub enum EngineError {
    NoInverse,
    DegenerateModulus,
    SearchExhausted,
}

} // verus!
