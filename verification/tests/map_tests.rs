//! Tests for the header mapping: unique keys, overwrite on repeated
//! insertion, lookup through classified names.

use httpreq::types::{HeaderMap, HeaderName};

#[test]
fn map_starts_empty() {
    let m = HeaderMap::new();
    assert_eq!(m.len(), 0);
    assert!(m.get(&HeaderName::Host).is_none());
}

#[test]
fn map_insert_and_get() {
    let mut m = HeaderMap::new();
    m.insert(HeaderName::Host, String::from("a"));
    m.insert(HeaderName::Accept, String::from("b"));
    assert_eq!(m.len(), 2);
    assert_eq!(m.get(&HeaderName::Host).unwrap(), "a");
    assert_eq!(m.get(&HeaderName::Accept).unwrap(), "b");
    assert!(m.get(&HeaderName::Connection).is_none());
}

#[test]
fn map_insert_overwrites_same_key() {
    let mut m = HeaderMap::new();
    m.insert(HeaderName::Host, String::from("first"));
    m.insert(HeaderName::Host, String::from("second"));
    assert_eq!(m.len(), 1);
    assert_eq!(m.get(&HeaderName::Host).unwrap(), "second");
}

#[test]
fn map_fallback_names_compare_by_text() {
    let mut m = HeaderMap::new();
    let k1 = HeaderName::parse(b"X-Trace").unwrap();
    let k2 = HeaderName::parse(b"x-TRACE").unwrap();
    m.insert(k1, String::from("v1"));
    m.insert(k2, String::from("v2"));
    assert_eq!(m.len(), 1);
    assert_eq!(m.get(&HeaderName::parse(b"x-trace").unwrap()).unwrap(), "v2");
}
