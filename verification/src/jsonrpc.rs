//! The JSON-RPC 2.0 message model: identifiers, the version tag, parameters, and the
//! shapes of calls, notifications and responses.

use crate::error::ErrorObject;
use crate::json::{object_fields, object_keys, JsonMap, JsonValue};
use vstd::prelude::*;

verus! {

/// Correlation key of a request, echoed on its response.
///
/// The client generates numeric identifiers only. Strings and null occur on received
/// frames and match no request of this client.
#[derive(Debug, PartialEq)]
pub enum Id {
    /// Numeric identifier.
    Num(u64),
    /// String identifier.
    Str(String),
    /// The JSON value `null`.
    Null,
}

impl Id {
    /// The number of a numeric identifier.
    pub open spec fn number(self) -> Option<u64> {
        match self {
            Id::Num(n) => Some(n),
            _ => None,
        }
    }

    /// The number of a numeric identifier; `None` for a string or null.
    pub fn as_number(&self) -> (n: Option<u64>)
        ensures
            n == self.number(),
    {
        match self {
            Id::Num(n) => Some(*n),
            _ => None,
        }
    }
}

/// Protocol version tag. Only version 2.0 exists.
#[derive(Debug, PartialEq, Eq, Clone, Copy)]
pub enum Version {
    /// JSON-RPC 2.0.
    V2,
}

impl Version {
    /// The tag as it stands in the `jsonrpc` member of a message.
    pub fn as_str(&self) -> (tag: &'static str)
        ensures
            tag@ == "2.0"@,
    {
        "2.0"
    }

    /// Reads a version tag. Every tag but `2.0` is rejected.
    pub fn parse(tag: &str) -> (version: Option<Version>)
        ensures
            version == if tag@ == "2.0"@ {
                Some(Version::V2)
            } else {
                None::<Version>
            },
    {
        if tag.to_owned() == "2.0".to_owned() {
            Some(Version::V2)
        } else {
            None
        }
    }
}

/// Parameters of a request as they were decoded: absent, positional or named.
#[derive(Debug, PartialEq)]
pub enum Params {
    /// No parameters.
    Absent,
    /// Positional parameters.
    Array(Vec<JsonValue>),
    /// Named parameters.
    Object(JsonMap),
}

/// A key into the parameters of a request, as a mathematical value.
pub enum KeySpec {
    /// Name of a named parameter.
    String(Seq<char>),
    /// Position of a positional parameter.
    Index(nat),
}

/// One parameter of a request, as a mathematical value.
pub enum EntrySpec {
    /// A positional parameter.
    Value(JsonValue),
    /// A named parameter with its key.
    KeyValue(KeySpec, JsonValue),
}

impl Params {
    /// The parameter under `key`. A position finds nothing among named parameters, and a
    /// name nothing among positional ones.
    pub open spec fn lookup(self, key: KeySpec) -> Option<JsonValue> {
        match (self, key) {
            (Params::Array(values), KeySpec::Index(index)) => if index < values@.len() {
                Some(values@[index as int])
            } else {
                None
            },
            (Params::Object(object), KeySpec::String(name)) => if object_fields(object).contains_key(
                name,
            ) {
                Some(object_fields(object)[name])
            } else {
                None
            },
            _ => None,
        }
    }

    /// `found` is what [`Self::lookup`] finds under `key`.
    pub open spec fn found_under(self, key: KeySpec, found: Option<&JsonValue>) -> bool {
        match found {
            Some(value) => self.lookup(key) == Some(*value),
            None => self.lookup(key) is None,
        }
    }

    /// `entry` is what [`Self::lookup`] finds: at position `position` if it is positional,
    /// under its own key if it is named.
    pub open spec fn finds(self, position: int, entry: EntrySpec) -> bool {
        match entry {
            EntrySpec::Value(value) => self.lookup(KeySpec::Index(position as nat)) == Some(value),
            EntrySpec::KeyValue(key, value) => self.lookup(key) == Some(value),
        }
    }

    /// `entry`, at position `position` of the parameters, is the parameter under `key`.
    pub open spec fn entry_for(self, key: KeySpec, position: int, entry: EntrySpec) -> bool {
        match key {
            KeySpec::Index(index) => position == index && entry == EntrySpec::Value(
                self.lookup(key)->Some_0,
            ),
            KeySpec::String(_) => entry == EntrySpec::KeyValue(key, self.lookup(key)->Some_0),
        }
    }

    /// All parameters in source order.
    pub open spec fn entries(self) -> Seq<EntrySpec> {
        match self {
            Params::Absent => Seq::empty(),
            Params::Array(values) => Seq::new(values@.len(), |i: int| EntrySpec::Value(values@[i])),
            Params::Object(object) => Seq::new(
                object_keys(object).len(),
                |i: int|
                    EntrySpec::KeyValue(
                        KeySpec::String(object_keys(object)[i]),
                        object_fields(object)[object_keys(object)[i]],
                    ),
            ),
        }
    }
}

/// A request that expects a response.
#[derive(Debug, PartialEq)]
pub struct Call {
    /// Protocol version.
    pub jsonrpc: Version,
    /// Name of the method to invoke.
    pub method: String,
    /// Parameters of the invocation.
    pub params: Params,
    /// Identifier that the response will carry.
    pub id: Id,
}

impl Call {
    /// A version 2.0 call with a numeric identifier.
    pub fn new(id: u64, method: String, params: Params) -> (call: Call)
        ensures
            call == (Call { jsonrpc: Version::V2, method, params, id: Id::Num(id) }),
    {
        Call { jsonrpc: Version::V2, method, params, id: Id::Num(id) }
    }
}

/// A request that expects no response: it carries no identifier.
#[derive(Debug, PartialEq)]
pub struct Notification {
    /// Protocol version.
    pub jsonrpc: Version,
    /// Name of the method to invoke.
    pub method: String,
    /// Parameters of the invocation.
    pub params: Params,
}

impl Notification {
    /// A version 2.0 notification.
    pub fn new(method: String, params: Params) -> (notification: Notification)
        ensures
            notification == (Notification { jsonrpc: Version::V2, method, params }),
    {
        Notification { jsonrpc: Version::V2, method, params }
    }
}

/// What goes out on the wire in one message.
#[derive(Debug, PartialEq)]
pub enum Request {
    /// A single call.
    Single(Call),
    /// A notification.
    Notification(Notification),
    /// Several calls in one message.
    Batch(Vec<Call>),
}

/// The answer to one call.
#[derive(Debug, PartialEq)]
pub enum Output {
    /// The call succeeded.
    Success { jsonrpc: Version, result: JsonValue, id: Id },
    /// The call failed.
    Failure { jsonrpc: Version, error: ErrorObject, id: Id },
}

/// What comes in from the wire in one message.
#[derive(Debug, PartialEq)]
pub enum Response {
    /// The answer to a single call.
    Single(Output),
    /// The answers to the calls of a batch, in any order.
    Batch(Vec<Output>),
    /// A message pushed by the peer for the subscription with this identifier.
    Notif { subscription: Id, result: JsonValue },
}

/// Number of [`ErrorCode::ParseError`].
pub const PARSE_ERROR_CODE: i64 = -32700;

/// Number of [`ErrorCode::InvalidRequest`].
pub const INVALID_REQUEST_CODE: i64 = -32600;

/// Number of [`ErrorCode::MethodNotFound`].
pub const METHOD_NOT_FOUND_CODE: i64 = -32601;

/// Number of [`ErrorCode::InvalidParams`].
pub const INVALID_PARAMS_CODE: i64 = -32602;

/// Number of [`ErrorCode::InternalError`].
pub const INTERNAL_ERROR_CODE: i64 = -32603;

/// Numeric error codes with a meaning fixed by the protocol.
#[derive(Debug, PartialEq, Eq, Clone, Copy)]
pub enum ErrorCode {
    /// Invalid JSON was received.
    ParseError,
    /// The JSON sent is not a valid request object.
    InvalidRequest,
    /// The method does not exist or is not available.
    MethodNotFound,
    /// Invalid method parameters.
    InvalidParams,
    /// Internal error of the peer.
    InternalError,
    /// Any other code. Applications stay clear of the five codes above.
    ServerError(i64),
}

impl ErrorCode {
    /// The number that stands for this code on the wire.
    pub open spec fn code_spec(self) -> i64 {
        match self {
            ErrorCode::ParseError => PARSE_ERROR_CODE,
            ErrorCode::InvalidRequest => INVALID_REQUEST_CODE,
            ErrorCode::MethodNotFound => METHOD_NOT_FOUND_CODE,
            ErrorCode::InvalidParams => INVALID_PARAMS_CODE,
            ErrorCode::InternalError => INTERNAL_ERROR_CODE,
            ErrorCode::ServerError(code) => code,
        }
    }

    /// The code that a number stands for.
    pub open spec fn from_code_spec(code: i64) -> ErrorCode {
        if code == PARSE_ERROR_CODE {
            ErrorCode::ParseError
        } else if code == INVALID_REQUEST_CODE {
            ErrorCode::InvalidRequest
        } else if code == METHOD_NOT_FOUND_CODE {
            ErrorCode::MethodNotFound
        } else if code == INVALID_PARAMS_CODE {
            ErrorCode::InvalidParams
        } else if code == INTERNAL_ERROR_CODE {
            ErrorCode::InternalError
        } else {
            ErrorCode::ServerError(code)
        }
    }

    /// The number that stands for this code on the wire.
    pub fn code(&self) -> (code: i64)
        ensures
            code == self.code_spec(),
    {
        match self {
            ErrorCode::ParseError => PARSE_ERROR_CODE,
            ErrorCode::InvalidRequest => INVALID_REQUEST_CODE,
            ErrorCode::MethodNotFound => METHOD_NOT_FOUND_CODE,
            ErrorCode::InvalidParams => INVALID_PARAMS_CODE,
            ErrorCode::InternalError => INTERNAL_ERROR_CODE,
            ErrorCode::ServerError(code) => *code,
        }
    }

    /// The code that a number stands for.
    pub fn from_code(code: i64) -> (error_code: ErrorCode)
        ensures
            error_code == Self::from_code_spec(code),
    {
        if code == PARSE_ERROR_CODE {
            ErrorCode::ParseError
        } else if code == INVALID_REQUEST_CODE {
            ErrorCode::InvalidRequest
        } else if code == METHOD_NOT_FOUND_CODE {
            ErrorCode::MethodNotFound
        } else if code == INVALID_PARAMS_CODE {
            ErrorCode::InvalidParams
        } else if code == INTERNAL_ERROR_CODE {
            ErrorCode::InternalError
        } else {
            ErrorCode::ServerError(code)
        }
    }

    /// Every number survives the way to a code and back.
    pub proof fn lemma_number_round_trip(code: i64)
        ensures
            Self::from_code_spec(code).code_spec() == code,
    {
    }

    /// A code survives the way to its number and back, unless it is a `ServerError` that
    /// holds one of the five numbers with a fixed meaning.
    pub proof fn lemma_code_round_trip(self)
        requires
            self matches ErrorCode::ServerError(code) ==> Self::from_code_spec(code) is ServerError,
        ensures
            Self::from_code_spec(self.code_spec()) == self,
    {
    }
}

} // verus!
