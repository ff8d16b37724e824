//! Multi-precision unsigned arithmetic over digits of any primitive width.
//!
//! Numbers are sequences of digits. The engine (`SimpleEngine`) works on
//! little-endian numbers (`BigNum`, `VecBigNum`); the byte-buffer family
//! (`add_unsigned`, `sub_unsigned`, `compare_unsigned`, ...) works on plain
//! big-endian slices. Every operation is stated over the value of its
//! operands (`le_val`, `be_val`).
pub mod be;
pub mod digit;
pub mod engine;
pub mod ext;
pub mod iutil;
pub mod num;
pub mod value;

pub use be::{
    add_unsigned, add_unsigned_in_place, compare_unsigned, multiply_accumulate_digit, sub_unsigned,
    sub_unsigned_in_place,
};
pub use digit::{SignedNumDigit, UnsignedNumDigit};
pub use engine::{SimpleEngine, UnsignedEngine};
pub use ext::BigNumExt;
pub use iutil::{assert_dst_op, assert_in_place_op};
pub use num::{
    BigNum, BigNumMut, DefaultBigNumDigit, DynamicBigNum, SignedBigNum, SignedBigNumMut, VecBigNum,
};
