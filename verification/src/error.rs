//! The ways in which reading a serialized bitmap can fail.

use vstd::prelude::*;

verus! {

/// Why a buffer was refused. A key that has no container is not an error:
/// lookups report it as an absent value.
#[derive(Debug, Clone, Copy, PartialEq, Eq)]
pub enum Error {
    /// The buffer does not start with a known cookie.
    UnknownCookie,
    /// The cookie announces run containers, which are not supported.
    RunContainersUnsupported,
    /// The declared number of containers exceeds the key space.
    SizeOutOfRange,
    /// A read of the header, a table or a payload would pass the end of the buffer.
    Truncated,
    /// An array payload is not strictly increasing, or a bitmap payload does
    /// not hold as many set bits as its descriptor declares.
    Corrupt,
}

impl Error {
    /// The words that describe the failure.
    pub open spec fn text(self) -> Seq<char> {
        match self {
            Error::UnknownCookie => "unknown cookie value"@,
            Error::RunContainersUnsupported => "run containers are unsupported"@,
            Error::SizeOutOfRange => "size is greater than supported"@,
            Error::Truncated => "unexpected end of buffer"@,
            Error::Corrupt => "container payload is corrupt"@,
        }
    }

    /// A short description of the failure.
    pub fn message(&self) -> (s: &'static str)
        ensures
            s@ == self.text(),
    {
        match self {
            Error::UnknownCookie => "unknown cookie value",
            Error::RunContainersUnsupported => "run containers are unsupported",
            Error::SizeOutOfRange => "size is greater than supported",
            Error::Truncated => "unexpected end of buffer",
            Error::Corrupt => "container payload is corrupt",
        }
    }
}

} // verus!
