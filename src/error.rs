//! The ways in which the library's operations fail.

use vstd::prelude::*;

verus! {

/// Why an operation failed.
#[derive(Clone, Copy, Debug, PartialEq, Eq, Structural)]
pub enum Error {
    /// A persisted store does not begin with the expected version tag.
    CacheVersion,
    /// A persisted store could not be decompressed or decoded.
    CacheCorrupt,
    /// An operation named a license that the store does not hold.
    UnknownLicense,
    /// Variants are headers or alternates, never the original text.
    InvalidVariant,
    /// The text data was stripped of its normalized lines.
    MissingText,
    /// The store is empty, so no license can match.
    NoMatch,
    /// Compressing a persisted store failed.
    Io,
    /// A license document lacks a field it must have.
    MissingField,
}

} // verus!
