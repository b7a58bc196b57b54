//! Miller–Rabin probable-prime test over fixed-width unsigned integers,
//! with Montgomery-form modular exponentiation.

pub mod big_int;
pub mod hex;
pub mod laws;
pub mod montgomery;
pub mod primality;
pub mod word_math;

pub use big_int::BigUInt;
pub use word_math::{extended_gcd, inverse_pow2_bits};
pub use primality::{miller_rabin, miller_rabin_with_bases};
