//! The failures that every repository operation can report.

use vstd::prelude::*;

verus! {

/// Why an operation failed.
#[derive(Debug, Clone, PartialEq, Eq)]
pub enum Error {
    /// The backend engine reported a failure; its message is carried through.
    Git2Error(String),
    /// The named object does not exist.
    NotFound(String),
    /// An assumption of the operation does not hold of the repository.
    InvalidRepository(String),
    /// A failure of the host process.
    Unknown(String),
}

/// The four kinds of failure, without their payload.
#[derive(Clone, Copy, Debug, PartialEq, Eq, Structural)]
pub enum ErrorKind {
    Backend,
    NotFound,
    InvalidRepository,
    Unknown,
}

impl Error {
    /// Which kind of failure this is.
    pub open spec fn spec_kind(&self) -> ErrorKind {
        match self {
            Error::Git2Error(_) => ErrorKind::Backend,
            Error::NotFound(_) => ErrorKind::NotFound,
            Error::InvalidRepository(_) => ErrorKind::InvalidRepository,
            Error::Unknown(_) => ErrorKind::Unknown,
        }
    }

    /// Which kind of failure this is.
    #[verifier::when_used_as_spec(spec_kind)]
    pub fn kind(&self) -> (k: ErrorKind)
        ensures
            k == self.spec_kind(),
    {
        match self {
            Error::Git2Error(_) => ErrorKind::Backend,
            Error::NotFound(_) => ErrorKind::NotFound,
            Error::InvalidRepository(_) => ErrorKind::InvalidRepository,
            Error::Unknown(_) => ErrorKind::Unknown,
        }
    }

    /// The text carried by the failure.
    pub open spec fn spec_message(&self) -> &String {
        match self {
            Error::Git2Error(s) => s,
            Error::NotFound(s) => s,
            Error::InvalidRepository(s) => s,
            Error::Unknown(s) => s,
        }
    }

    /// The text carried by the failure.
    #[verifier::when_used_as_spec(spec_message)]
    pub fn message(&self) -> (m: &String)
        ensures
            m == self.spec_message(),
    {
        match self {
            Error::Git2Error(s) => s,
            Error::NotFound(s) => s,
            Error::InvalidRepository(s) => s,
            Error::Unknown(s) => s,
        }
    }
}

} // verus!
