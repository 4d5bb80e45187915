//! A meet-in-the-middle search for large pseudoprimes over modular subset
//! products: Gray-code enumeration of subset products under a fixed 64-bit
//! modulus, a Bloom-filter index with a symmetric shard merge, and a bignum
//! primality sieve over the agreeing pairs.

pub mod bitset;
pub mod bloomfilter;
pub mod gray_prod_iter;
pub mod magic_numbers;
pub mod modulus;
pub mod mulmod;
pub mod progress;
pub mod time;
