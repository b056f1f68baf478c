//! Small numeric primitives: a prime sieve with checked sums, and the verified
//! skeleton of a frequency-domain linear convolution (size planning, zero
//! padding, spectrum combination and truncation), together with the exact
//! integer model of linear and cyclic convolution that the skeleton realises.
pub mod primes;
pub mod plan;
pub mod buffers;
pub mod convolution;
