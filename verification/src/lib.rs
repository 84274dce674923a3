//! Prime-related number theory: a bit-packed prime sieve over the residues
//! coprime to six, prime enumeration, range primorials, and the swinging
//! factorial, with arbitrary-precision results held in `num_bigint::BigUint`.

pub mod bignum;
pub mod factorial_algorithms;
pub mod math;
pub mod sieve;
pub mod xmath;
