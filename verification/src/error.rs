//! Errors reported to callers.

use crate::json::JsonValue;
use vstd::prelude::*;
use vstd::string::StringExecFns;

verus! {

/// The error member of a failed response.
#[derive(Debug, PartialEq)]
pub struct ErrorObject {
    /// Numeric code, see [`crate::jsonrpc::ErrorCode`].
    pub code: i64,
    /// Short description of the error.
    pub message: String,
    /// Additional information supplied by the peer.
    pub data: Option<JsonValue>,
}

/// Everything that can go wrong for a caller of the client.
#[derive(Debug, PartialEq)]
pub enum Error {
    /// Sending or receiving on the connection failed; the text describes the cause.
    TransportError(String),
    /// The peer answered with an error object.
    Request(ErrorObject),
    /// An identifier was registered that is not in the allocated state.
    InvalidRequestId,
    /// Every identifier of the pool is in flight.
    MaxSlotsExceeded,
    /// A payload could not be decoded into the requested type.
    ParseError(String),
    /// Any other failure, described by its text.
    Custom(String),
}

/// Failure of a size-limited body read.
#[derive(Debug, PartialEq)]
pub enum GenericTransportError<T> {
    /// The body, or its declared length, exceeds the configured maximum.
    TooLarge,
    /// The underlying transport failed.
    Inner(T),
}

impl Error {
    /// The text of [`Error::message`].
    pub open spec fn message_text(self) -> Seq<char> {
        match self {
            Error::TransportError(cause) => "Networking or low-level protocol error: "@ + cause@,
            Error::Request(object) => "JSON-RPC request error: "@ + object.message@,
            Error::InvalidRequestId => "Invalid request ID"@,
            Error::MaxSlotsExceeded => "Configured max number of request slots exceeded"@,
            Error::ParseError(cause) => "Parse error: "@ + cause@,
            Error::Custom(text) => "Custom error: "@ + text@,
        }
    }

    /// Human-readable description of the error.
    pub fn message(&self) -> (text: String)
        ensures
            text@ == self.message_text(),
    {
        match self {
            Error::TransportError(cause) => String::from_str(
                "Networking or low-level protocol error: ",
            ).concat(cause.as_str()),
            Error::Request(object) => String::from_str("JSON-RPC request error: ").concat(
                object.message.as_str(),
            ),
            Error::InvalidRequestId => String::from_str("Invalid request ID"),
            Error::MaxSlotsExceeded => String::from_str(
                "Configured max number of request slots exceeded",
            ),
            Error::ParseError(cause) => String::from_str("Parse error: ").concat(cause.as_str()),
            Error::Custom(text) => String::from_str("Custom error: ").concat(text.as_str()),
        }
    }
}

} // verus!
