use hyper::header::{HeaderMap, HeaderValue, CONTENT_LENGTH};
use jsonrpsee::error::GenericTransportError;
use jsonrpsee::hyper_helpers::{
    read_header_content_length, read_header_value, read_header_values, read_response_to_body, BodyReader,
};

#[test]
fn body_to_bytes_size_limit_works() {
    let headers = HeaderMap::new();
    let body: Vec<Result<Vec<u8>, String>> = vec![Ok(vec![0; 128])];
    assert!(read_response_to_body(&headers, body, 127).is_err());
}

#[test]
fn read_content_length_works() {
    let mut headers = HeaderMap::new();
    headers.insert(CONTENT_LENGTH, "177".parse().unwrap());
    assert_eq!(read_header_content_length(&headers), Some(177));

    headers.append(CONTENT_LENGTH, "999".parse().unwrap());
    assert_eq!(read_header_content_length(&headers), None);
}

#[test]
fn read_content_length_too_big_value() {
    let mut headers = HeaderMap::new();
    headers.insert(CONTENT_LENGTH, "18446744073709551616".parse().unwrap());
    assert_eq!(read_header_content_length(&headers), None);
}

#[test]
fn body_at_the_limit_is_accepted() {
    let headers = HeaderMap::new();
    let body: Vec<Result<Vec<u8>, String>> = vec![Ok(vec![7; 100]), Ok(vec![9; 28])];
    let bytes = read_response_to_body(&headers, body, 128).unwrap();
    assert_eq!(bytes.len(), 128);
    assert_eq!(bytes[0], 7);
    assert_eq!(bytes[99], 7);
    assert_eq!(bytes[100], 9);
    assert_eq!(bytes[127], 9);
}

#[test]
fn body_without_chunks_is_empty() {
    let headers = HeaderMap::new();
    let body: Vec<Result<Vec<u8>, String>> = Vec::new();
    assert_eq!(read_response_to_body(&headers, body, 0), Ok(Vec::new()));
}

#[test]
fn declared_length_over_the_limit_is_rejected_before_reading() {
    let mut headers = HeaderMap::new();
    headers.insert(CONTENT_LENGTH, "9999".parse().unwrap());
    // The failed chunk would surface as `Inner` if the body were read at all.
    let body: Vec<Result<Vec<u8>, String>> = vec![Err("never read".to_string())];
    assert_eq!(read_response_to_body(&headers, body, 128), Err(GenericTransportError::TooLarge));

    let refused: Result<BodyReader, GenericTransportError<String>> = BodyReader::start(Some(9999), 128);
    assert!(matches!(refused, Err(GenericTransportError::TooLarge)));
}

#[test]
fn declared_length_within_the_limit_is_not_trusted() {
    let mut headers = HeaderMap::new();
    headers.insert(CONTENT_LENGTH, "4".parse().unwrap());
    let body: Vec<Result<Vec<u8>, String>> = vec![Ok(vec![1; 64]), Ok(vec![2; 65])];
    assert_eq!(read_response_to_body(&headers, body, 128), Err(GenericTransportError::TooLarge));
}

#[test]
fn duplicated_content_length_counts_as_absent() {
    let mut headers = HeaderMap::new();
    headers.insert(CONTENT_LENGTH, "9999".parse().unwrap());
    headers.append(CONTENT_LENGTH, "9999".parse().unwrap());
    assert_eq!(read_header_value(&headers, "content-length"), None);
    assert_eq!(read_header_content_length(&headers), None);

    // With no usable declaration the limit is enforced on what arrives.
    let small: Vec<Result<Vec<u8>, String>> = vec![Ok(vec![1, 2, 3])];
    assert_eq!(read_response_to_body(&headers, small, 128), Ok(vec![1, 2, 3]));
    let large: Vec<Result<Vec<u8>, String>> = vec![Ok(vec![0; 129])];
    assert_eq!(read_response_to_body(&headers, large, 128), Err(GenericTransportError::TooLarge));
}

#[test]
fn failed_chunk_ends_the_read_with_the_inner_error() {
    let headers = HeaderMap::new();
    let body: Vec<Result<Vec<u8>, String>> =
        vec![Ok(vec![1, 2]), Err("connection reset".to_string()), Ok(vec![0; 1000])];
    assert_eq!(
        read_response_to_body(&headers, body, 128),
        Err(GenericTransportError::Inner("connection reset".to_string()))
    );
}

#[test]
fn limit_is_checked_before_a_later_failure() {
    let headers = HeaderMap::new();
    let body: Vec<Result<Vec<u8>, String>> = vec![Ok(vec![0; 200]), Err("late".to_string())];
    assert_eq!(read_response_to_body(&headers, body, 128), Err(GenericTransportError::TooLarge));
}

#[test]
fn body_reader_accumulates_chunk_by_chunk() {
    let started: Result<BodyReader, GenericTransportError<String>> = BodyReader::start(Some(5), 5);
    let mut reader = started.unwrap();
    assert_eq!(reader.push::<String>(Ok(vec![1, 2, 3])), Ok(()));
    assert_eq!(reader.push::<String>(Ok(vec![4, 5, 6])), Err(GenericTransportError::TooLarge));
    assert_eq!(reader.push::<String>(Err("gone".to_string())), Err(GenericTransportError::Inner("gone".to_string())));
    assert_eq!(reader.push::<String>(Ok(vec![4, 5])), Ok(()));
    assert_eq!(reader.push::<String>(Ok(vec![])), Ok(()));
    assert_eq!(reader.push::<String>(Ok(vec![6])), Err(GenericTransportError::TooLarge));
    assert_eq!(reader.finish(), vec![1, 2, 3, 4, 5]);
}

#[test]
fn header_value_is_read_when_it_is_the_only_one() {
    let mut headers = HeaderMap::new();
    headers.insert("x-request", HeaderValue::from_static("alpha"));
    headers.append("x-tags", HeaderValue::from_static("one"));
    headers.append("x-tags", HeaderValue::from_static("two"));
    assert_eq!(read_header_value(&headers, "x-request"), Some("alpha"));
    assert_eq!(read_header_value(&headers, "X-Request"), Some("alpha"));
    assert_eq!(read_header_value(&headers, "x-tags"), None);
    assert_eq!(read_header_value(&headers, "x-missing"), None);
    assert_eq!(read_header_value(&headers, "not a header name"), None);
}

#[test]
fn header_value_with_other_bytes_has_no_text() {
    let mut headers = HeaderMap::new();
    headers.insert("x-raw", HeaderValue::from_bytes(&[0xe2, 0x82, 0xac]).unwrap());
    headers.insert("x-tab", HeaderValue::from_bytes(b"a\tb").unwrap());
    assert_eq!(read_header_value(&headers, "x-raw"), None);
    assert_eq!(read_header_value(&headers, "x-tab"), Some("a\tb"));
}

#[test]
fn header_values_come_in_insertion_order() {
    let mut headers = HeaderMap::new();
    headers.append("x-tags", HeaderValue::from_static("one"));
    headers.append("x-other", HeaderValue::from_static("zero"));
    headers.append("x-tags", HeaderValue::from_static("two"));
    let values = read_header_values(&headers, "x-tags");
    assert_eq!(values.len(), 2);
    assert_eq!(values[0].as_bytes(), b"one");
    assert_eq!(values[1].as_bytes(), b"two");
    assert!(read_header_values(&headers, "x-none").is_empty());
}

#[test]
fn content_length_is_a_decimal_number_of_32_bits() {
    let cases: Vec<(&str, Option<u32>)> = vec![
        ("0", Some(0)),
        ("007", Some(7)),
        ("+42", Some(42)),
        ("4294967295", Some(4294967295)),
        ("4294967296", None),
        ("", None),
        ("+", None),
        ("-1", None),
        (" 1", None),
        ("1 ", None),
        ("1_000", None),
        ("0x10", None),
        ("12a", None),
        ("++1", None),
    ];
    for (text, expected) in cases {
        let mut headers = HeaderMap::new();
        headers.insert(CONTENT_LENGTH, HeaderValue::from_str(text).unwrap());
        assert_eq!(read_header_content_length(&headers), expected);
    }
    assert_eq!(read_header_content_length(&HeaderMap::new()), None);
}
