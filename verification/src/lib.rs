//! Numeric puzzle-solving library built around two verified cores:
//! an incremental segmented prime sieve and decimal digit-vector
//! arithmetic, together with the small solvers that consume them.
pub mod bitset;
pub mod continued_fraction;
pub mod digits;
pub mod euler_context;
pub mod lychrel_numbers;
pub mod poker;
pub mod primes;
pub mod sieve;
pub mod spiral_primes;
pub mod utils;
pub mod xor_decryption;
