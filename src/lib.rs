//! First-N primes by growing a known prefix with a segmented sieve of
//! Eratosthenes, chunk by chunk.
pub mod chunk_size;
pub mod primes;
pub mod sieve;
pub mod engine;
pub mod seed;
