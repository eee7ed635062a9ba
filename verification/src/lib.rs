//! CPU-bound numeric utilities: primality testing and prime counting,
//! Fibonacci numbers with 64-bit wraparound, and a demonstration string digest.
//!
//! Every function is pure and total; each contract states its result over a
//! mathematical model.

pub mod digest;
pub mod fibonacci;
pub mod primes;

pub use digest::{hash_bytes, hash_password, to_hex};
pub use fibonacci::fibonacci;
pub use primes::{count_primes, floor_sqrt, is_prime};
