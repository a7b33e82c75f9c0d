//! Arithmetic substrate for elliptic-curve cryptography: fixed-width
//! multi-precision integers, a signed wrapper, modular ("clock") arithmetic
//! over a prime field, and point operations on a short Weierstrass curve,
//! instantiated for secp256k1.

pub mod crypto;
pub mod utils;
