//! Bit-field packing of 64-bit words, a two-dimensional array in row-major
//! order, and the integer side of the rpeg image codec.

pub mod array2;
pub mod bitpack;
pub mod codec;
mod word_math;

pub use array2::Array2;
