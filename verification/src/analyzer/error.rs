use vstd::prelude::*;

verus! {

/// Why a text could not be analyzed.
#[derive(Debug, Clone, Copy, PartialEq, Eq, Structural)]
pub enum Error {
    /// A stage of the analyzer could not read what it needs.
    Io,
}

pub type Result<T> = core::result::Result<T, Error>;

} // verus!
