//! A bit-packed table of the primes up to a bound, built once by the sieve of
//! Eratosthenes and read in constant time afterwards.

pub mod bits;
pub mod primality;
pub mod sqrt;
pub mod table;

pub use table::PrimeTable;
