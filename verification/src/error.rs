//! The library's error type.
use vstd::prelude::*;

verus! {

/// Why an operation on a package or a part did not go through.
#[derive(Debug)]
pub enum Error {
    /// The document, or one part of it, is not what the reader expected.
    Format(String),
    /// The file named does not exist.
    NotFound,
    /// A rewrite was asked to write over the package it reads from.
    WouldOverwriteSource,
    /// The operating system refused a read or a write.
    Io(String),
}

} // verus!
