//! Kerl: a ternary sponge over the Keccak-f[1600] permutation.
pub mod bigint;
pub mod codec;
pub mod constants;
pub mod keccak;
pub mod kerl;
