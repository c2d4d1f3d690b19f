use vstd::prelude::*;

verus! {

/// The error kinds the storage layer distinguishes.
#[derive(Clone, Copy, Debug, PartialEq, Eq, Structural)]
pub enum Error {
    /// A key was absent where one was required.
    NotFound,
    /// The underlying store failed to move bytes.
    Transport,
    /// Stored bytes do not have the expected shape.
    Integrity,
    /// An external filter process failed.
    FilterFailed,
    /// A configuration violates its validity rules.
    ConfigInvalid,
    /// A programming invariant was violated.
    Fatal,
}

impl Error {
    /// A short description of the error kind.
    pub fn describe(&self) -> (r: &'static str)
    {
        match self {
            Error::NotFound => "not found",
            Error::Transport => "transport failure",
            Error::Integrity => "integrity failure",
            Error::FilterFailed => "filter process failed",
            Error::ConfigInvalid => "invalid configuration",
            Error::Fatal => "internal invariant violated",
        }
    }
}

} // verus!
