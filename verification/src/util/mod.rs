//! Bit-level building blocks shared by the encoders, and helpers for
//! trying them out.

pub mod bit_util;
pub mod bits;
pub mod hash_util;
pub mod test_common;
