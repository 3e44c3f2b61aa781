//! An exact k-nearest-neighbour index over fixed-dimension vectors, scored by
//! inner product, with a binary image format for persistence.
//!
//! Vector entries and scores are 32-bit floats held as their bit patterns.
//! The index checks dimensions, assigns sequential IDs, ranks scored entries
//! and encodes or decodes images; the float arithmetic that yields the scores,
//! the file access and the lock that shares an index between threads belong
//! to the caller.

pub mod codec;
pub mod error;
pub mod index;
pub mod ranking;
