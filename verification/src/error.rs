//! The error taxonomy of the client.

use vstd::prelude::*;

use crate::value::Value;

verus! {

/// Everything that can go wrong between a request and its interpreted
/// reply. Every case is returned to the caller as a value; no layer here
/// retries, reconnects or panics.
#[derive(Debug, PartialEq, Eq)]
pub enum Error {
    /// A socket read or write failed; the connection must not be reused.
    /// Carries the reporting text of the underlying failure.
    TransportIo(String),
    /// The initial dial of the server address failed.
    ConnectFailed(String),
    /// A reply that cannot be framed: a leading byte that is none of
    /// `+ - : $ *`, an unparseable or negative length or count, an integer
    /// out of range, or an array nested inside an array. Terminal for the
    /// connection it was read from.
    FramingViolation,
    /// A reply beginning with `-`: the server's message, verbatim.
    ServerError(Vec<u8>),
    /// A reply that was well formed but not the acknowledgment the
    /// operation required; carries the reply itself.
    AcknowledgmentMismatch(Value),
}

impl Error {
    /// A short fixed name of the error case, for reporting.
    pub fn describe(&self) -> (r: &'static str)
        ensures
            r@ == self.spec_describe(),
    {
        match self {
            Error::TransportIo(_) => "transport i/o failure",
            Error::ConnectFailed(_) => "connect failed",
            Error::FramingViolation => "framing violation",
            Error::ServerError(_) => "server error reply",
            Error::AcknowledgmentMismatch(_) => "unexpected acknowledgment",
        }
    }

    /// The name `describe` returns for each case.
    pub open spec fn spec_describe(&self) -> Seq<char> {
        match self {
            Error::TransportIo(_) => "transport i/o failure"@,
            Error::ConnectFailed(_) => "connect failed"@,
            Error::FramingViolation => "framing violation"@,
            Error::ServerError(_) => "server error reply"@,
            Error::AcknowledgmentMismatch(_) => "unexpected acknowledgment"@,
        }
    }
}

} // verus!
