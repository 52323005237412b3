//! Tests for the decoders: methods, header names, header fields, request
//! lines, whole header blocks, and declared content lengths.

use httpreq::errors::{HeaderParseError, RequestHeaderParseError, RequestLineParseError};
use httpreq::parse::parse_content_length;
use httpreq::types::{Header, HeaderName, Method, RequestHeader, RequestLine};

#[test]
fn method_closed_set_case_insensitive() {
    assert_eq!(Method::parse(b"GET"), Some(Method::Get));
    assert_eq!(Method::parse(b"get"), Some(Method::Get));
    assert_eq!(Method::parse(b"GeT"), Some(Method::Get));
    assert_eq!(Method::parse(b"HEAD"), Some(Method::Head));
    assert_eq!(Method::parse(b"post"), Some(Method::Post));
    assert_eq!(Method::parse(b"PUT"), None);
    assert_eq!(Method::parse(b""), None);
    assert_eq!(Method::parse(b"GETX"), None);
}

#[test]
fn header_name_well_known_and_fallback() {
    assert_eq!(HeaderName::parse(b"Host").unwrap(), HeaderName::Host);
    assert_eq!(HeaderName::parse(b"content-length").unwrap(), HeaderName::ContentLength);
    assert_eq!(HeaderName::parse(b"Accept").unwrap(), HeaderName::Accept);
    assert_eq!(
        HeaderName::parse(b"X-Custom").unwrap(),
        HeaderName::Other(String::from("x-custom"))
    );
    assert!(HeaderName::parse(b"Bad Name").is_err());
    assert!(HeaderName::parse(b"colon:name").is_err());
}

#[test]
fn header_name_classifies_cases_to_identical_key() {
    let a = HeaderName::parse(b"Host").unwrap();
    let b = HeaderName::parse(b"HOST").unwrap();
    assert_eq!(a, b);
    assert_eq!(b, HeaderName::Host);
}

#[test]
fn header_field_splits_at_first_colon() {
    let Header(name, value) = Header::parse(b"Host: localhost:8080").unwrap();
    assert_eq!(name, HeaderName::Host);
    assert_eq!(value, "localhost:8080");
}

#[test]
fn header_field_missing_separator() {
    assert_eq!(Header::parse(b"BadHeader-NoColon").unwrap_err(), HeaderParseError::NoSeparator);
    assert_eq!(Header::parse(b"").unwrap_err(), HeaderParseError::NoSeparator);
}

#[test]
fn header_field_invalid_name() {
    assert_eq!(Header::parse(b"Bad Name: x").unwrap_err(), HeaderParseError::InvalidName);
}

#[test]
fn header_field_invalid_value_encoding() {
    assert_eq!(Header::parse(b"X: \xff\xfe").unwrap_err(), HeaderParseError::InvalidUtf8Value);
}

#[test]
fn header_field_trims_whitespace_once() {
    let Header(_, value) = Header::parse(b"K: \t  spaced value \t ").unwrap();
    assert_eq!(value, "spaced value");
    let Header(_, empty) = Header::parse(b"K:   ").unwrap();
    assert_eq!(empty, "");
}

#[test]
fn request_line_decodes_triple() {
    let rl = RequestLine::parse(b"GET / HTTP/1.1").unwrap();
    assert_eq!(rl.method, Method::Get);
    assert_eq!(rl.path, "/");
    assert_eq!(rl.version, "HTTP/1.1");
}

#[test]
fn request_line_distinct_failures() {
    assert_eq!(RequestLine::parse(b"PUT / HTTP/1.1").unwrap_err(), RequestLineParseError::Method);
    assert_eq!(RequestLine::parse(b"GET").unwrap_err(), RequestLineParseError::Path);
    assert_eq!(RequestLine::parse(b"GET /").unwrap_err(), RequestLineParseError::Version);
    assert_eq!(RequestLine::parse(b"").unwrap_err(), RequestLineParseError::Method);
}

#[test]
fn request_line_extra_spaces_not_merged() {
    let rl = RequestLine::parse(b"GET  / HTTP/1.1").unwrap();
    assert_eq!(rl.path, "");
    assert_eq!(rl.version, "/");
}

#[test]
fn request_line_path_decoded_permissively() {
    let rl = RequestLine::parse(b"GET /\xff HTTP/1.1").unwrap();
    assert_eq!(rl.path, "/\u{fffd}");
    assert_eq!(rl.version, "HTTP/1.1");
}

#[test]
fn assembler_recovers_structured_request() {
    let block = b"GET / HTTP/1.1\r\nHost: localhost:8080\r\nAccept: */*\r\n";
    let header = RequestHeader::parse(block).unwrap();
    assert_eq!(header.request_line.method, Method::Get);
    assert_eq!(header.request_line.path, "/");
    assert_eq!(header.request_line.version, "HTTP/1.1");
    assert_eq!(header.headers.len(), 2);
    assert_eq!(header.headers.get(&HeaderName::Host).unwrap(), "localhost:8080");
    assert_eq!(header.headers.get(&HeaderName::Accept).unwrap(), "*/*");
    assert!(header.headers.get(&HeaderName::Referer).is_none());
}

#[test]
fn assembler_header_stage_failure_keeps_nothing() {
    let block = b"GET / HTTP/1.1\r\nBadHeader-NoColon\r\n";
    assert_eq!(
        RequestHeader::parse(block).unwrap_err(),
        RequestHeaderParseError::Header(HeaderParseError::NoSeparator)
    );
}

#[test]
fn assembler_request_line_stage_failure() {
    let block = b"PUT / HTTP/1.1\r\nHost: a\r\n";
    assert_eq!(
        RequestHeader::parse(block).unwrap_err(),
        RequestHeaderParseError::RequestLine(RequestLineParseError::Method)
    );
}

#[test]
fn assembler_duplicate_header_last_wins() {
    let block = b"GET / HTTP/1.1\r\nHost: first\r\nHOST: second\r\n";
    let header = RequestHeader::parse(block).unwrap();
    assert_eq!(header.headers.len(), 1);
    assert_eq!(header.headers.get(&HeaderName::Host).unwrap(), "second");
}

#[test]
fn assembler_empty_header_section() {
    let block = b"HEAD /x HTTP/1.0\r\n";
    let header = RequestHeader::parse(block).unwrap();
    assert_eq!(header.request_line.method, Method::Head);
    assert_eq!(header.headers.len(), 0);
}

#[test]
fn content_length_decimal_readings() {
    assert_eq!(parse_content_length("5"), Some(5));
    assert_eq!(parse_content_length("007"), Some(7));
    assert_eq!(parse_content_length("+7"), Some(7));
    assert_eq!(parse_content_length(""), None);
    assert_eq!(parse_content_length("+"), None);
    assert_eq!(parse_content_length("12a"), None);
    assert_eq!(parse_content_length(" 5"), None);
    assert_eq!(parse_content_length("99999999999999999999999999"), None);
}

#[test]
fn error_messages() {
    assert_eq!(RequestLineParseError::Method.message(), "method was missing or invalid");
    assert_eq!(HeaderParseError::NoSeparator.message(), "separator colon was missing");
    assert_eq!(
        RequestHeaderParseError::Header(HeaderParseError::NoSeparator).message(),
        "failed to parse Header: separator colon was missing"
    );
    assert_eq!(
        RequestHeaderParseError::RequestLine(RequestLineParseError::Version).message(),
        "failed to parse Request-Line: version was missing or invalid"
    );
}
