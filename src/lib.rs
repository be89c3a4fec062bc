//! A growable, densely packed array of booleans.
//!
//! Bits are addressed by non-negative indices and stored eight to a byte.
//! Reading past the end of the storage yields an unset bit; setting a bit
//! past the end grows the storage as needed. See [`GrowableBitMap`].
mod bitmap;
pub mod words;

pub use bitmap::GrowableBitMap;
