use vstd::prelude::*;

verus! {

/// What was wrong with a persisted index image.
#[derive(Debug, Clone, Copy, PartialEq, Eq, Structural)]
pub enum CorruptKind {
    /// Fewer bytes than the fixed header needs.
    Truncated,
    /// The first word is not the format's magic number.
    BadMagic,
    /// The format version is not one this library reads.
    BadVersion,
    /// The header names a dimension of zero.
    ZeroDimension,
    /// The header's vector count does not match the bytes that follow it.
    SizeMismatch,
}
} // verus!

verus! {

/// Every way an index operation can fail.
#[derive(Debug, PartialEq, Eq)]
pub enum IndexError {
    /// The index could not be built with these parameters.
    Construction { dimension: u32 },
    /// An input vector has the wrong length. `index` is its position in the
    /// batch, `None` for a query.
    DimensionMismatch { index: Option<usize>, got: usize, expected: usize },
    /// The lock that guards a shared index could not be taken.
    Concurrency,
    /// Reading or writing a file failed.
    Io { path: String, cause: String },
    /// A persisted image failed structural validation.
    CorruptData { kind: CorruptKind },
}
} // verus!
