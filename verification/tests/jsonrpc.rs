use jsonrpsee::error::{Error, ErrorObject};
use jsonrpsee::jsonrpc::{
    Call, ErrorCode, Id, Notification, Params, Version, INTERNAL_ERROR_CODE, INVALID_PARAMS_CODE,
    INVALID_REQUEST_CODE, METHOD_NOT_FOUND_CODE, PARSE_ERROR_CODE,
};

#[test]
fn only_numeric_identifiers_have_a_number() {
    assert_eq!(Id::Num(7).as_number(), Some(7));
    assert_eq!(Id::Num(u64::MAX).as_number(), Some(u64::MAX));
    assert_eq!(Id::Str("7".to_string()).as_number(), None);
    assert_eq!(Id::Null.as_number(), None);
}

#[test]
fn version_tag_is_two_point_zero() {
    assert_eq!(Version::V2.as_str(), "2.0");
    assert_eq!(Version::parse("2.0"), Some(Version::V2));
    assert_eq!(Version::parse("1.0"), None);
    assert_eq!(Version::parse("2.00"), None);
    assert_eq!(Version::parse(""), None);
    assert_eq!(Version::parse(" 2.0"), None);
}

#[test]
fn calls_and_notifications_carry_version_two() {
    let call = Call::new(3, "echo".to_string(), Params::Absent);
    assert_eq!(
        call,
        Call { jsonrpc: Version::V2, method: "echo".to_string(), params: Params::Absent, id: Id::Num(3) }
    );
    let notification = Notification::new("ping".to_string(), Params::Array(Vec::new()));
    assert_eq!(
        notification,
        Notification { jsonrpc: Version::V2, method: "ping".to_string(), params: Params::Array(Vec::new()) }
    );
}

#[test]
fn reserved_error_codes_have_their_numbers() {
    assert_eq!(ErrorCode::ParseError.code(), -32700);
    assert_eq!(ErrorCode::InvalidRequest.code(), -32600);
    assert_eq!(ErrorCode::MethodNotFound.code(), -32601);
    assert_eq!(ErrorCode::InvalidParams.code(), -32602);
    assert_eq!(ErrorCode::InternalError.code(), -32603);
    assert_eq!(ErrorCode::ServerError(-32000).code(), -32000);
    assert_eq!(PARSE_ERROR_CODE, -32700);
    assert_eq!(INVALID_REQUEST_CODE, -32600);
    assert_eq!(METHOD_NOT_FOUND_CODE, -32601);
    assert_eq!(INVALID_PARAMS_CODE, -32602);
    assert_eq!(INTERNAL_ERROR_CODE, -32603);
}

#[test]
fn numbers_map_to_their_codes_and_back() {
    assert_eq!(ErrorCode::from_code(-32700), ErrorCode::ParseError);
    assert_eq!(ErrorCode::from_code(-32600), ErrorCode::InvalidRequest);
    assert_eq!(ErrorCode::from_code(-32601), ErrorCode::MethodNotFound);
    assert_eq!(ErrorCode::from_code(-32602), ErrorCode::InvalidParams);
    assert_eq!(ErrorCode::from_code(-32603), ErrorCode::InternalError);
    assert_eq!(ErrorCode::from_code(-32604), ErrorCode::ServerError(-32604));
    assert_eq!(ErrorCode::from_code(0), ErrorCode::ServerError(0));
    for code in [i64::MIN, -32700, -32603, -32600, -1, 0, 1, 404, i64::MAX] {
        assert_eq!(ErrorCode::from_code(code).code(), code);
    }
    // A `ServerError` that holds a number with a fixed meaning does not come back.
    assert_eq!(ErrorCode::from_code(ErrorCode::ServerError(-32700).code()), ErrorCode::ParseError);
}

#[test]
fn error_messages_name_their_cause() {
    assert_eq!(
        Error::TransportError("reset".to_string()).message(),
        "Networking or low-level protocol error: reset"
    );
    assert_eq!(
        Error::Request(ErrorObject { code: -32601, message: "no such method".to_string(), data: None }).message(),
        "JSON-RPC request error: no such method"
    );
    assert_eq!(Error::InvalidRequestId.message(), "Invalid request ID");
    assert_eq!(Error::MaxSlotsExceeded.message(), "Configured max number of request slots exceeded");
    assert_eq!(Error::ParseError("eof".to_string()).message(), "Parse error: eof");
    assert_eq!(Error::Custom("no such param".to_string()).message(), "Custom error: no such param");
}
