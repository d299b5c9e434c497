use vstd::prelude::*;

verus! {

/// Why an index could not be written, opened or read.
#[derive(Debug, Clone, Copy, PartialEq, Eq, Structural)]
pub enum Error {
    /// The data ended before a field that had to be read.
    Io,
    /// The magic number or the version of a file is not the expected one.
    Incompatible,
    /// A posting index is not below the length of its list, a posting list
    /// is empty, or a posting block is cut short.
    OutOfRange,
    /// The term index is corrupt or malformed.
    FstError,
}

pub type Result<T> = core::result::Result<T, Error>;

} // verus!
