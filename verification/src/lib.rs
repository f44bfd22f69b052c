//! A chaos-keyed permutation and substitution cipher over byte buffers, and
//! a least-significant-bit embedder that hides a text message in a carrier.
//!
//! The cipher is keyed by a chaotic sequence. The library reads two things
//! from each value of the sequence, its bit pattern and its byte, and takes
//! the sequence as a vector of `logistic_map::Sample`, which holds both as
//! integers.
//!
//! - `permutation`: the sorted order of a key sequence, and moving groups
//!   of bytes forward and backward through a permutation.
//! - `logistic_map`: `encode` and `decode`, and the two steps they are made of.
//! - `stega`: `inject_lsb` and `extract_lsb`.

pub mod logistic_map;
pub mod permutation;
pub mod stega;
