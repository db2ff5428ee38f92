use vstd::prelude::*;

verus! {

/// Category of a failure.
#[derive(Debug, Copy, Clone, PartialEq, Eq, Structural)]
pub enum ErrorKind {
    UnexpectedEof,
    /// An assertion failed.
    AssertionFailed,
    /// Client is not authenticated.
    NotAuthenticated,
    /// Client sent a bad packet.
    Malformed,
    /// Version mismatch.
    Outdated,
    /// The server tried to initialise something that was already initialised.
    AlreadyInitialized,
    /// The server tried to use something that hasn't been initialised yet.
    NotInitialized,
    /// An operation on the database has failed.
    DatabaseFailure,
    Unsupported,
    /// A buffering cap was hit: too many pending compounds, a compound that is
    /// too large, or an order gap that is too wide.
    ResourceExceeded,
    /// The application side of the connection no longer takes payloads.
    ChannelClosed,
    /// An unknown error
    Other,
}

/// An error with its category and a human-readable message.
#[derive(Debug)]
pub struct Error {
    kind: ErrorKind,
    msg: String,
}

impl Error {
    pub closed spec fn spec_kind(&self) -> ErrorKind {
        self.kind
    }

    pub closed spec fn spec_msg(&self) -> Seq<char> {
        self.msg@
    }

    pub fn new(kind: ErrorKind, msg: String) -> (r: Self)
        ensures
            r.spec_kind() == kind,
            r.spec_msg() == msg@,
    {
        Error { kind, msg }
    }

    pub fn kind(&self) -> (r: ErrorKind)
        ensures
            r == self.spec_kind(),
    {
        self.kind
    }

    /// The message given when the error was made.
    pub fn message(&self) -> (r: String)
        ensures
            r@ == self.spec_msg(),
    {
        self.msg.clone()
    }
}

} // verus!
