//! Bit-field packing and unpacking within a single 64-bit word.
//!
//! A field is a contiguous run of bits inside a `u64`, described by its width
//! and the index of its least-significant bit. The library offers predicates
//! that decide whether a value is representable in a given width, extraction
//! of a field as an unsigned or a sign-extended signed value, and insertion
//! of a value into a field, leaving every other bit of the word unchanged.

pub mod bitpack;
pub mod laws;
pub mod model;

pub use crate::bitpack::fitss;
pub use crate::bitpack::fitsu;
pub use crate::bitpack::gets;
pub use crate::bitpack::getu;
pub use crate::bitpack::news;
pub use crate::bitpack::newu;
