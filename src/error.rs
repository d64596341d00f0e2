use vstd::prelude::*;

verus! {

/// Errors of the consensus core.
#[derive(Clone, Copy, Debug, PartialEq, Eq, Structural)]
pub enum Error {
    /// A request was abandoned: the node that handled it lost its role.
    Abort,
    /// The log can hold no more entries.
    LogFull,
}

/// A result with the library's error type.
pub type Result<T> = std::result::Result<T, Error>;

} // verus!
