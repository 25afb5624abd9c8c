//! Sizes and constants shared by the codec and the sponge.
use vstd::prelude::*;

verus! {

/// A balanced ternary digit: -1, 0 or 1.
pub type Trit = i8;

/// The base of the trit encoding.
pub const RADIX: i32 = 3;

/// Bytes in one encoded chunk.
pub const BYTE_LENGTH: usize = 48;

/// Trits in one chunk.
pub const TRIT_LENGTH: usize = 243;

/// `3^242 / 2`, rounded down, as little-endian `u32` limbs.
pub const HALF_3: [u32; 12] = [
    0xa5ce8964,
    0x9f007669,
    0x1484504f,
    0x3ade00d9,
    0x0c24486e,
    0x50979d57,
    0x79a4c702,
    0x48bbae36,
    0xa9f6808b,
    0xaa06a805,
    0xa87fabdf,
    0x5e69ebef,
];

} // verus!
