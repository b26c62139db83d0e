//! Composable binary codecs over byte slices.
//!
//! Every codec type states, as spec functions, the bytes that a value is
//! written as and the value that a byte sequence is read as; the executable
//! `try_from_ctx`, `try_into_ctx` and `measure_with` are proved against them.
pub mod codec;
pub mod endian_wrapper;
pub mod error;
pub mod example;
pub mod length;
pub mod number;
pub mod order;
pub mod text;
pub mod utf16;
