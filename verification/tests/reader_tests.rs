//! Tests for the bounded-buffer reader: terminator detection, body
//! extraction, exhaustion, and chunking independence.

use httpreq::reader::{HeaderReader, ReadEvent, ReadState};
use httpreq::types::{HeaderName, Method, RequestHeader};

#[test]
fn reader_finds_header_in_one_read() {
    let mut r = HeaderReader::new(1024);
    assert_eq!(r.status(), ReadState::Reading);
    r.on_read(ReadEvent::Data(b"GET / HTTP/1.1\r\nHost: a\r\n\r\n".to_vec()));
    assert_eq!(r.status(), ReadState::HeaderFound(23));
    assert_eq!(r.header_block(), b"GET / HTTP/1.1\r\nHost: a\r\n".as_slice());
}

#[test]
fn reader_post_with_body() {
    let mut r = HeaderReader::new(1024);
    r.on_read(ReadEvent::Data(b"POST /x HTTP/1.0\r\nContent-Length: 5\r\n\r\nhello".to_vec()));
    let j = match r.status() {
        ReadState::HeaderFound(j) => j,
        other => panic!("unexpected state {:?}", other),
    };
    assert_eq!(&r.header_block()[..j], b"POST /x HTTP/1.0\r\nContent-Length: 5".as_slice());
    let header = RequestHeader::parse(r.header_block()).unwrap();
    assert_eq!(header.request_line.method, Method::Post);
    assert_eq!(header.headers.get(&HeaderName::ContentLength).unwrap(), "5");
    assert_eq!(header.declared_content_length(), Some(Some(5)));
    assert_eq!(r.body(5).unwrap(), b"hello".as_slice());
}

#[test]
fn reader_body_beyond_buffer_is_framing_error() {
    let mut r = HeaderReader::new(1024);
    r.on_read(ReadEvent::Data(b"POST /x HTTP/1.0\r\nContent-Length: 9\r\n\r\nhello".to_vec()));
    assert!(matches!(r.status(), ReadState::HeaderFound(_)));
    assert!(r.body(9).is_none());
    assert!(r.body(5).is_some());
}

#[test]
fn reader_exhausts_without_terminator() {
    let mut r = HeaderReader::new(8);
    r.on_read(ReadEvent::Data(b"aaaa".to_vec()));
    assert_eq!(r.status(), ReadState::Reading);
    assert_eq!(r.remaining(), 4);
    r.on_read(ReadEvent::Data(b"bbbb".to_vec()));
    assert_eq!(r.status(), ReadState::BufferExhausted);
}

#[test]
fn reader_exhausts_byte_by_byte() {
    let mut r = HeaderReader::new(4);
    for _ in 0..3 {
        r.on_read(ReadEvent::Data(vec![b'x']));
        assert_eq!(r.status(), ReadState::Reading);
    }
    r.on_read(ReadEvent::Data(vec![b'x']));
    assert_eq!(r.status(), ReadState::BufferExhausted);
}

#[test]
fn reader_close_and_failure_are_terminal() {
    let mut r = HeaderReader::new(16);
    r.on_read(ReadEvent::Closed);
    assert_eq!(r.status(), ReadState::ConnectionClosed);

    let mut r2 = HeaderReader::new(16);
    r2.on_read(ReadEvent::Failed);
    assert_eq!(r2.status(), ReadState::IoError);
}

#[test]
fn chunking_does_not_change_the_outcome() {
    let stream = b"GET / HTTP/1.1\r\nHost: localhost:8080\r\nAccept: */*\r\n\r\n";

    let mut whole = HeaderReader::new(1024);
    whole.on_read(ReadEvent::Data(stream.to_vec()));

    let mut bytewise = HeaderReader::new(1024);
    for &b in stream.iter() {
        assert_eq!(bytewise.status(), ReadState::Reading);
        bytewise.on_read(ReadEvent::Data(vec![b]));
    }

    assert_eq!(whole.status(), bytewise.status());
    assert_eq!(whole.header_block(), bytewise.header_block());

    let a = RequestHeader::parse(whole.header_block()).unwrap();
    let b = RequestHeader::parse(bytewise.header_block()).unwrap();
    assert_eq!(a.request_line.method, b.request_line.method);
    assert_eq!(a.request_line.path, b.request_line.path);
    assert_eq!(a.request_line.version, b.request_line.version);
    assert_eq!(a.headers.get(&HeaderName::Host), b.headers.get(&HeaderName::Host));
    assert_eq!(a.headers.get(&HeaderName::Accept), b.headers.get(&HeaderName::Accept));
    assert_eq!(a.headers.len(), b.headers.len());
}

#[test]
fn terminator_split_across_reads() {
    let mut r = HeaderReader::new(32);
    r.on_read(ReadEvent::Data(b"GET / HTTP/1.0\r\n\r".to_vec()));
    assert_eq!(r.status(), ReadState::Reading);
    r.on_read(ReadEvent::Data(b"\n".to_vec()));
    assert_eq!(r.status(), ReadState::HeaderFound(14));
    assert_eq!(r.header_block(), b"GET / HTTP/1.0\r\n".as_slice());
}

#[test]
fn terminator_found_when_buffer_fills_exactly() {
    let stream = b"GET / HTTP/1.0\r\n\r\n";
    let mut r = HeaderReader::new(stream.len());
    r.on_read(ReadEvent::Data(stream.to_vec()));
    assert_eq!(r.status(), ReadState::HeaderFound(14));
}

#[test]
fn structured_request_from_stream() {
    let stream = b"GET / HTTP/1.1\r\nHost: localhost:8080\r\nAccept: */*\r\n\r\n";
    let mut r = HeaderReader::new(1024);
    r.on_read(ReadEvent::Data(stream.to_vec()));
    let header = RequestHeader::parse(r.header_block()).unwrap();
    assert_eq!(header.request_line.method, Method::Get);
    assert_eq!(header.request_line.path, "/");
    assert_eq!(header.request_line.version, "HTTP/1.1");
    assert_eq!(header.headers.get(&HeaderName::Host).unwrap(), "localhost:8080");
    assert_eq!(header.headers.get(&HeaderName::Accept).unwrap(), "*/*");
    assert_eq!(header.declared_content_length(), None);
}
