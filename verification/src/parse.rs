//! Decoders for the pieces of a header block: the request line, one header
//! field, the header-name classifier, and decimal content lengths.

use vstd::prelude::*;
use vstd::utf8::{valid_utf8, decode_utf8};
use crate::errors::{HeaderNameParseError, HeaderParseError, RequestLineParseError};
use crate::scan::{is_token, spec_is_tchar, spec_is_token};
use crate::types::{
    accept_bytes, ascii_text, connection_bytes, content_length_bytes, host_bytes, referer_bytes,
    user_agent_bytes, Header, HeaderName, Method, RequestLine, RequestLineView,
};

verus! {

/// An ASCII uppercase letter mapped to its lowercase form; any other byte
/// unchanged.
pub open spec fn lower_byte(b: u8) -> u8 {
    if 0x41 <= b <= 0x5a {
        (b + 0x20) as u8
    } else {
        b
    }
}

/// Bytewise ASCII lowercasing.
pub open spec fn lower_bytes(s: Seq<u8>) -> Seq<u8> {
    s.map_values(|b: u8| lower_byte(b))
}

/// Bytewise ASCII lowercasing of a byte slice.
pub fn to_lowercase_bytes(data: &[u8]) -> (r: Vec<u8>)
    ensures
        r@ == lower_bytes(data@),
{
    let mut r: Vec<u8> = Vec::new();
    let mut i: usize = 0;
    while i < data.len()
        invariant
            data@.len() == data.len(),
            0 <= i <= data@.len(),
            r@.len() == i,
            forall|m: int| 0 <= m < i ==> r@[m] == lower_byte(data@[m]),
        decreases data@.len() - i,
    {
        let b = data[i];
        if 0x41 <= b && b <= 0x5a {
            r.push(b + 0x20);
        } else {
            r.push(b);
        }
        i = i + 1;
    }
    assert(r@ =~= lower_bytes(data@));
    r
}

/// The two byte sequences are equal.
pub fn bytes_eq(a: &[u8], b: &[u8]) -> (r: bool)
    ensures
        r == (a@ == b@),
{
    if a.len() != b.len() {
        return false;
    }
    let mut i: usize = 0;
    while i < a.len()
        invariant
            a@.len() == a.len(),
            a@.len() == b@.len(),
            0 <= i <= a@.len(),
            forall|m: int| 0 <= m < i ==> a@[m] == b@[m],
        decreases a@.len() - i,
    {
        if a[i] != b[i] {
            return false;
        }
        i = i + 1;
    }
    assert(a@ =~= b@);
    true
}

/// Lowercasing preserves membership in the token alphabet, in both
/// directions.
pub proof fn lemma_token_lower(s: Seq<u8>)
    ensures
        spec_is_token(lower_bytes(s)) == spec_is_token(s),
{
    assert forall|i: int| 0 <= i < s.len() implies spec_is_tchar(lower_bytes(s)[i])
        == spec_is_tchar(s[i]) by {
        assert(lower_bytes(s)[i] == lower_byte(s[i]));
    }
}

/// A sequence of bytes below 0x80 is valid text, decoding to one character
/// per byte.
pub proof fn lemma_ascii_decodes(bytes: Seq<u8>)
    requires
        forall|i: int| 0 <= i < bytes.len() ==> bytes[i] < 0x80,
    ensures
        valid_utf8(bytes),
        decode_utf8(bytes) == ascii_text(bytes),
    decreases bytes.len(),
{
    if bytes.len() > 0 {
        let b = bytes[0];
        assert(vstd::utf8::is_leading_byte_width_1(b));
        assert((b & 0x7f) == b) by (bit_vector)
            requires
                b < 0x80,
        ;
        assert(vstd::utf8::decode_first_scalar(bytes) == b as u32);
        assert(vstd::utf8::valid_first_scalar(bytes));
        assert(vstd::utf8::pop_first_scalar(bytes) =~= bytes.drop_first());
        lemma_ascii_decodes(bytes.drop_first());
        assert((b as u32) as char == b as char);
        assert(decode_utf8(bytes) =~= ascii_text(bytes));
    } else {
        assert(decode_utf8(bytes) =~= ascii_text(bytes));
    }
}

/// The text that permissive decoding recovers from a sequence of bytes:
/// valid text decodes exactly; anything else has its malformed sequences
/// replaced, never rejected.
pub open spec fn permissive_text(bytes: Seq<u8>) -> Seq<char> {
    if valid_utf8(bytes) {
        decode_utf8(bytes)
    } else {
        lossy_text(bytes)
    }
}

/// The replacement text that the standard library's lossy decoder produces
/// for bytes that are not valid text. It depends on the bytes alone.
pub uninterp spec fn lossy_text(bytes: Seq<u8>) -> Seq<char>;

/// Relies on `std::str::from_utf8`: returns the decoded text exactly when
/// the bytes are a valid encoding, and nothing otherwise.
#[verifier::external_body]
fn utf8_exact(data: &[u8]) -> (r: Option<String>)
    ensures
        r is Some <==> valid_utf8(data@),
        r matches Some(s) ==> s@ == decode_utf8(data@),
{
    match std::str::from_utf8(data) {
        Ok(s) => Some(s.to_owned()),
        Err(_) => None,
    }
}

/// Relies on `String::from_utf8_lossy`: decodes valid encodings exactly and
/// replaces malformed sequences otherwise; the result depends on the bytes
/// alone.
#[verifier::external_body]
fn utf8_permissive(data: &[u8]) -> (r: String)
    ensures
        valid_utf8(data@) ==> r@ == decode_utf8(data@),
        !valid_utf8(data@) ==> r@ == lossy_text(data@),
{
    String::from_utf8_lossy(data).into_owned()
}

/// The bytes of the lowercase method name `get`.
pub open spec fn get_bytes() -> Seq<u8> {
    seq![103u8, 101u8, 116u8]
}

/// The bytes of the lowercase method name `head`.
pub open spec fn head_bytes() -> Seq<u8> {
    seq![104u8, 101u8, 97u8, 100u8]
}

/// The bytes of the lowercase method name `post`.
pub open spec fn post_bytes() -> Seq<u8> {
    seq![112u8, 111u8, 115u8, 116u8]
}

/// The method spelled by a raw method field, compared after lowercasing;
/// nothing when the field spells no recognized method.
pub open spec fn spec_method(s: Seq<u8>) -> Option<Method> {
    if lower_bytes(s) == get_bytes() {
        Some(Method::Get)
    } else if lower_bytes(s) == head_bytes() {
        Some(Method::Head)
    } else if lower_bytes(s) == post_bytes() {
        Some(Method::Post)
    } else {
        None
    }
}

impl Method {
    /// Decode a raw method field, case-insensitively, against the closed
    /// set of recognized methods.
    pub fn parse(data: &[u8]) -> (r: Option<Method>)
        ensures
            r == spec_method(data@),
    {
        let lower = to_lowercase_bytes(data);
        let get_pat: [u8; 3] = [103, 101, 116];
        let head_pat: [u8; 4] = [104, 101, 97, 100];
        let post_pat: [u8; 4] = [112, 111, 115, 116];
        proof {
            assert(get_pat@ =~= get_bytes());
            assert(head_pat@ =~= head_bytes());
            assert(post_pat@ =~= post_bytes());
        }
        if bytes_eq(lower.as_slice(), get_pat.as_slice()) {
            Some(Method::Get)
        } else if bytes_eq(lower.as_slice(), head_pat.as_slice()) {
            Some(Method::Head)
        } else if bytes_eq(lower.as_slice(), post_pat.as_slice()) {
            Some(Method::Post)
        } else {
            None
        }
    }
}

/// The normalized text of a raw header name: its lowercased bytes read as
/// characters.
pub open spec fn spec_name_text(raw: Seq<u8>) -> Seq<char> {
    ascii_text(lower_bytes(raw))
}

impl HeaderName {
    /// Classify a raw header name: lowercase it, match against the six
    /// well-known names, and otherwise accept any token as a fallback name.
    /// Fails exactly when some byte lies outside the token alphabet. An
    /// empty name passes the token check vacuously and classifies to the
    /// empty fallback name: callers that want to reject it must do so
    /// themselves.
    pub fn parse(data: &[u8]) -> (r: Result<HeaderName, HeaderNameParseError>)
        ensures
            r is Ok <==> spec_is_token(data@),
            r matches Ok(n) ==> n@ == spec_name_text(data@) && n.wf(),
    {
        let lower = to_lowercase_bytes(data);
        if !is_token(lower.as_slice()) {
            proof {
                lemma_token_lower(data@);
            }
            return Err(HeaderNameParseError);
        }
        proof {
            lemma_token_lower(data@);
        }
        let accept_pat: [u8; 6] = [97, 99, 99, 101, 112, 116];
        let connection_pat: [u8; 10] = [99, 111, 110, 110, 101, 99, 116, 105, 111, 110];
        let content_length_pat: [u8; 14] = [
            99,
            111,
            110,
            116,
            101,
            110,
            116,
            45,
            108,
            101,
            110,
            103,
            116,
            104,
        ];
        let host_pat: [u8; 4] = [104, 111, 115, 116];
        let referer_pat: [u8; 7] = [114, 101, 102, 101, 114, 101, 114];
        let user_agent_pat: [u8; 10] = [117, 115, 101, 114, 45, 97, 103, 101, 110, 116];
        proof {
            assert(accept_pat@ =~= accept_bytes());
            assert(connection_pat@ =~= connection_bytes());
            assert(content_length_pat@ =~= content_length_bytes());
            assert(host_pat@ =~= host_bytes());
            assert(referer_pat@ =~= referer_bytes());
            assert(user_agent_pat@ =~= user_agent_bytes());
        }
        if bytes_eq(lower.as_slice(), accept_pat.as_slice()) {
            Ok(HeaderName::Accept)
        } else if bytes_eq(lower.as_slice(), connection_pat.as_slice()) {
            Ok(HeaderName::Connection)
        } else if bytes_eq(lower.as_slice(), content_length_pat.as_slice()) {
            Ok(HeaderName::ContentLength)
        } else if bytes_eq(lower.as_slice(), host_pat.as_slice()) {
            Ok(HeaderName::Host)
        } else if bytes_eq(lower.as_slice(), referer_pat.as_slice()) {
            Ok(HeaderName::Referer)
        } else if bytes_eq(lower.as_slice(), user_agent_pat.as_slice()) {
            Ok(HeaderName::UserAgent)
        } else {
            proof {
                assert forall|i: int| 0 <= i < lower@.len() implies lower@[i] < 0x80 by {
                    assert(spec_is_tchar(lower@[i]));
                }
                lemma_ascii_decodes(lower@);
                lemma_ascii_text_injective(lower@, accept_bytes());
                lemma_ascii_text_injective(lower@, connection_bytes());
                lemma_ascii_text_injective(lower@, content_length_bytes());
                lemma_ascii_text_injective(lower@, host_bytes());
                lemma_ascii_text_injective(lower@, referer_bytes());
                lemma_ascii_text_injective(lower@, user_agent_bytes());
            }
            match utf8_exact(lower.as_slice()) {
                Some(s) => Ok(HeaderName::Other(s)),
                None => Err(HeaderNameParseError),
            }
        }
    }
}

/// Two byte sequences read as the same characters exactly when they are the
/// same bytes.
pub proof fn lemma_ascii_text_injective(a: Seq<u8>, b: Seq<u8>)
    ensures
        (ascii_text(a) == ascii_text(b)) <==> (a == b),
{
    if ascii_text(a) == ascii_text(b) {
        assert(ascii_text(a).len() == a.len());
        assert(ascii_text(b).len() == b.len());
        assert forall|i: int| 0 <= i < a.len() implies a[i] == b[i] by {
            assert(ascii_text(a)[i] == a[i] as char);
            assert(ascii_text(b)[i] == b[i] as char);
        }
        assert(a =~= b);
    }
}

/// The least index at or after `i` holding byte `target`, or the length of
/// the sequence when no such index exists.
pub open spec fn scan_to(s: Seq<u8>, target: u8, i: int) -> int
    recommends
        0 <= i <= s.len(),
    decreases s.len() - i,
    when 0 <= i <= s.len()
{
    if i >= s.len() {
        s.len() as int
    } else if s[i] == target {
        i
    } else {
        scan_to(s, target, i + 1)
    }
}

/// Position and bound facts about [`scan_to`].
pub proof fn lemma_scan_to(s: Seq<u8>, target: u8, i: int)
    requires
        0 <= i <= s.len(),
    ensures
        i <= scan_to(s, target, i) <= s.len(),
        scan_to(s, target, i) < s.len() ==> s[scan_to(s, target, i)] == target,
        forall|m: int| i <= m < scan_to(s, target, i) ==> s[m] != target,
    decreases s.len() - i,
{
    if i < s.len() && s[i] != target {
        lemma_scan_to(s, target, i + 1);
    }
}

/// The least index at or after `start` holding byte `target`, or the slice
/// length when the byte does not occur there.
pub fn find_byte_from(data: &[u8], target: u8, start: usize) -> (r: usize)
    requires
        start <= data@.len(),
    ensures
        r == scan_to(data@, target, start as int),
{
    let mut i: usize = start;
    while i < data.len()
        invariant
            data@.len() == data.len(),
            start <= i <= data@.len(),
            scan_to(data@, target, start as int) == scan_to(data@, target, i as int),
        decreases data@.len() - i,
    {
        if data[i] == target {
            return i;
        }
        i = i + 1;
    }
    i
}

/// A byte of optional whitespace around a header value: space or tab.
pub open spec fn is_ows(b: u8) -> bool {
    b == 32 || b == 9
}

/// The least index at or after `i` holding a byte that is not optional
/// whitespace, or the length of the sequence.
pub open spec fn ows_end(s: Seq<u8>, i: int) -> int
    recommends
        0 <= i <= s.len(),
    decreases s.len() - i,
    when 0 <= i <= s.len()
{
    if i >= s.len() {
        s.len() as int
    } else if is_ows(s[i]) {
        ows_end(s, i + 1)
    } else {
        i
    }
}

/// One past the last byte at or before `j` that is not optional whitespace,
/// or zero.
pub open spec fn ows_start_back(s: Seq<u8>, j: int) -> int
    recommends
        0 <= j <= s.len(),
    decreases j,
    when 0 <= j <= s.len()
{
    if j <= 0 {
        0
    } else if is_ows(s[j - 1]) {
        ows_start_back(s, j - 1)
    } else {
        j
    }
}

/// The sequence with leading and trailing optional whitespace stripped
/// exactly once.
pub open spec fn trim_spec(s: Seq<u8>) -> Seq<u8> {
    let a = ows_end(s, 0);
    if a == s.len() {
        Seq::empty()
    } else {
        s.subrange(a, ows_start_back(s, s.len() as int))
    }
}

/// Position facts about [`ows_end`].
proof fn lemma_ows_end(s: Seq<u8>, i: int)
    requires
        0 <= i <= s.len(),
    ensures
        i <= ows_end(s, i) <= s.len(),
        ows_end(s, i) < s.len() ==> !is_ows(s[ows_end(s, i)]),
    decreases s.len() - i,
{
    if i < s.len() && is_ows(s[i]) {
        lemma_ows_end(s, i + 1);
    }
}

/// Position facts about [`ows_start_back`]: the cut point stays right of
/// any known non-whitespace byte.
proof fn lemma_ows_start_back(s: Seq<u8>, j: int, a: int)
    requires
        0 <= a < j <= s.len(),
        !is_ows(s[a]),
    ensures
        a < ows_start_back(s, j) <= j,
        ows_start_back(s, j) > 0 ==> !is_ows(s[ows_start_back(s, j) - 1]),
    decreases j,
{
    if j > 0 && is_ows(s[j - 1]) {
        lemma_ows_start_back(s, j - 1, a);
    }
}

/// Strip leading and trailing optional whitespace (space and tab), exactly
/// once.
pub fn trim_ows(data: &[u8]) -> (r: &[u8])
    ensures
        r@ == trim_spec(data@),
{
    let mut a: usize = 0;
    while a < data.len() && (data[a] == 32 || data[a] == 9)
        invariant
            data@.len() == data.len(),
            0 <= a <= data@.len(),
            ows_end(data@, 0) == ows_end(data@, a as int),
        decreases data@.len() - a,
    {
        a = a + 1;
    }
    if a == data.len() {
        assert(trim_spec(data@) =~= data@.subrange(0, 0));
        return &data[0..0];
    }
    assert(ows_end(data@, 0) == a as int);
    let mut b: usize = data.len();
    while b > a && (data[b - 1] == 32 || data[b - 1] == 9)
        invariant
            data@.len() == data.len(),
            0 <= a < b <= data@.len(),
            !is_ows(data@[a as int]),
            ows_start_back(data@, data@.len() as int) == ows_start_back(data@, b as int),
        decreases b,
    {
        proof {
            lemma_ows_start_back(data@, b as int, a as int);
        }
        b = b - 1;
    }
    proof {
        lemma_ows_start_back(data@, b as int, a as int);
        assert(ows_start_back(data@, b as int) == b as int);
    }
    &data[a..b]
}

/// What decoding one terminator-stripped header line yields: the normalized
/// name text and the trimmed value text, or the exact failure. The line is
/// split at the first colon only, so values may contain colons.
pub open spec fn spec_header_field(s: Seq<u8>) -> Result<(Seq<char>, Seq<char>), HeaderParseError> {
    let c = scan_to(s, 58, 0);
    if c >= s.len() {
        Err(HeaderParseError::NoSeparator)
    } else {
        let name = s.subrange(0, c);
        let value = trim_spec(s.subrange(c + 1, s.len() as int));
        if !spec_is_token(name) {
            Err(HeaderParseError::InvalidName)
        } else if !valid_utf8(value) {
            Err(HeaderParseError::InvalidUtf8Value)
        } else {
            Ok((spec_name_text(name), decode_utf8(value)))
        }
    }
}

impl Header {
    /// Decode one terminator-stripped header line into its classified name
    /// and its trimmed value text.
    pub fn parse(data: &[u8]) -> (r: Result<Header, HeaderParseError>)
        ensures
            match r {
                Ok(h) => spec_header_field(data@) == Ok::<_, HeaderParseError>((h.0@, h.1@))
                    && h.0.wf(),
                Err(e) => spec_header_field(data@) == Err::<(Seq<char>, Seq<char>), _>(e),
            },
    {
        proof {
            lemma_scan_to(data@, 58, 0);
        }
        let c = find_byte_from(data, 58, 0);
        if c >= data.len() {
            return Err(HeaderParseError::NoSeparator);
        }
        let name_bytes = &data[0..c];
        let value_bytes = trim_ows(&data[c + 1..data.len()]);
        let name = match HeaderName::parse(name_bytes) {
            Ok(n) => n,
            Err(_) => {
                return Err(HeaderParseError::InvalidName);
            },
        };
        match utf8_exact(value_bytes) {
            Some(v) => Ok(Header(name, v)),
            None => Err(HeaderParseError::InvalidUtf8Value),
        }
    }
}

/// The least index at or after `i` where the line splits: a single ASCII
/// space, or the end of the line.
pub open spec fn field_end(s: Seq<u8>, i: int) -> int {
    scan_to(s, 32, i)
}

/// What decoding a terminator-stripped request line yields: the recognized
/// method and the permissively decoded path and version fields, or the
/// exact failure. The line splits on single spaces; extra spaces are not
/// merged, and any fields past the third are ignored.
pub open spec fn spec_request_line(s: Seq<u8>) -> Result<RequestLineView, RequestLineParseError> {
    let e0 = field_end(s, 0);
    match spec_method(s.subrange(0, e0)) {
        None => Err(RequestLineParseError::Method),
        Some(m) => if e0 >= s.len() {
            Err(RequestLineParseError::Path)
        } else {
            let e1 = field_end(s, e0 + 1);
            if e1 >= s.len() {
                Err(RequestLineParseError::Version)
            } else {
                let e2 = field_end(s, e1 + 1);
                Ok(
                    RequestLineView {
                        method: m,
                        path: permissive_text(s.subrange(e0 + 1, e1)),
                        version: permissive_text(s.subrange(e1 + 1, e2)),
                    },
                )
            }
        },
    }
}

/// An ASCII decimal digit.
pub open spec fn spec_digit(c: char) -> bool {
    48 <= c as u32 <= 57
}

/// The value of one decimal digit.
pub open spec fn digit_val(c: char) -> nat
    recommends
        spec_digit(c),
{
    (c as u32 - 48) as nat
}

/// The number spelled by a sequence of decimal digits, most significant
/// first.
pub open spec fn digits_val(s: Seq<char>) -> nat
    decreases s.len(),
{
    if s.len() == 0 {
        0
    } else {
        digits_val(s.drop_last()) * 10 + digit_val(s.last())
    }
}

/// A longer digit prefix never spells a smaller number.
proof fn lemma_digits_prefix_mono(s: Seq<char>, k: int)
    requires
        0 <= k <= s.len(),
    ensures
        digits_val(s.take(k)) <= digits_val(s),
    decreases s.len() - k,
{
    if k < s.len() {
        lemma_digits_prefix_mono(s, k + 1);
        assert(s.take(k + 1).drop_last() =~= s.take(k));
        assert(s.take(k + 1).last() == s[k]);
        assert(digits_val(s.take(k + 1)) == digits_val(s.take(k)) * 10 + digit_val(s[k]));
    } else {
        assert(s.take(k) =~= s);
    }
}

/// A header value with its optional leading plus sign removed: the part
/// that must be all digits.
pub open spec fn digits_part(s: Seq<char>) -> Seq<char> {
    if s.len() >= 1 && s[0] == '+' {
        s.drop_first()
    } else {
        s
    }
}

/// Every character is a decimal digit.
pub open spec fn all_digits(s: Seq<char>) -> bool {
    forall|i: int| 0 <= i < s.len() ==> spec_digit(s[i])
}

/// The declared length spelled by a header value, as the standard decimal
/// reading: an optional leading plus sign, then at least one digit and
/// nothing else, spelling a number the machine can hold.
pub open spec fn spec_content_length(s: Seq<char>) -> Option<usize> {
    if digits_part(s).len() >= 1 && all_digits(digits_part(s)) && digits_val(digits_part(s))
        <= usize::MAX {
        Some(digits_val(digits_part(s)) as usize)
    } else {
        None
    }
}

/// Decode a declared content length from a header value: an optional
/// leading plus sign, then decimal digits only; anything else, or a number
/// too large for the machine, yields nothing.
pub fn parse_content_length(s: &str) -> (r: Option<usize>)
    ensures
        r == spec_content_length(s@),
{
    let n = s.unicode_len();
    let mut i: usize = 0;
    if n >= 1 && (s.get_char(0) as u32) == 43 {
        proof {
            if s@[0] as u32 == 43 {
                vstd::utf8::char_u32_cast(s@[0], 43);
                vstd::utf8::char_u32_cast('+', 43);
            }
        }
        i = 1;
    }
    let ghost ds = digits_part(s@);
    proof {
        assert((i == 1) == (s@.len() >= 1 && s@[0] == '+'));
        assert(ds.len() == n - i);
        assert(forall|m: int| 0 <= m < ds.len() ==> ds[m] == s@[i + m]);
    }
    if i == n {
        return None;
    }
    let mut acc: usize = 0;
    let mut j: usize = i;
    while j < n
        invariant
            0 <= i <= 1,
            i <= j <= n,
            n == s@.len(),
            ds == digits_part(s@),
            (i == 1) == (s@.len() >= 1 && s@[0] == '+'),
            ds.len() == n - i,
            forall|m: int| 0 <= m < ds.len() ==> ds[m] == s@[i + m],
            forall|m: int| 0 <= m < j - i ==> spec_digit(ds[m]),
            acc == digits_val(ds.take(j - i)),
        decreases n - j,
    {
        let c = s.get_char(j);
        let u = c as u32;
        if u < 48 || u > 57 {
            proof {
                assert(ds[j - i] == s@[j as int]);
                assert(!spec_digit(ds[j - i]));
                assert(!all_digits(ds));
            }
            return None;
        }
        let d = (u - 48) as usize;
        let wide: u128 = acc as u128 * 10 + d as u128;
        proof {
            assert(ds.take(j - i + 1).drop_last() =~= ds.take(j - i));
            assert(ds.take(j - i + 1).last() == ds[j - i]);
            assert(digits_val(ds.take(j - i + 1)) == digits_val(ds.take(j - i)) * 10 + digit_val(
                ds[j - i],
            ));
        }
        if wide > usize::MAX as u128 {
            proof {
                lemma_digits_prefix_mono(ds, j - i + 1);
            }
            return None;
        }
        acc = wide as usize;
        j = j + 1;
    }
    proof {
        assert(ds.take(n - i) =~= ds);
    }
    Some(acc)
}

impl crate::types::RequestHeader {
    /// The content length this request declares: nothing when no
    /// Content-Length header is present, and the decoded declared length —
    /// or its decoding failure — when one is.
    pub fn declared_content_length(&self) -> (r: Option<Option<usize>>)
        requires
            self.wf(),
        ensures
            match r {
                None => !self@.headers.contains_key(ascii_text(content_length_bytes())),
                Some(v) => self@.headers.contains_key(ascii_text(content_length_bytes())) && v
                    == spec_content_length(self@.headers[ascii_text(content_length_bytes())]),
            },
    {
        let name = HeaderName::ContentLength;
        match self.headers.get(&name) {
            Some(v) => Some(parse_content_length(v.as_str())),
            None => None,
        }
    }
}

impl RequestLine {
    /// Decode a terminator-stripped request line into its method, path and
    /// version. The method must belong to the closed set; path and version
    /// are decoded permissively and never rejected.
    pub fn parse(data: &[u8]) -> (r: Result<RequestLine, RequestLineParseError>)
        ensures
            match r {
                Ok(rl) => spec_request_line(data@) == Ok::<_, RequestLineParseError>(rl@),
                Err(e) => spec_request_line(data@) == Err::<RequestLineView, _>(e),
            },
    {
        proof {
            lemma_scan_to(data@, 32, 0);
        }
        let e0 = find_byte_from(data, 32, 0);
        let method = match Method::parse(&data[0..e0]) {
            Some(m) => m,
            None => {
                return Err(RequestLineParseError::Method);
            },
        };
        if e0 >= data.len() {
            return Err(RequestLineParseError::Path);
        }
        proof {
            lemma_scan_to(data@, 32, e0 as int + 1);
        }
        let e1 = find_byte_from(data, 32, e0 + 1);
        if e1 >= data.len() {
            return Err(RequestLineParseError::Version);
        }
        proof {
            lemma_scan_to(data@, 32, e1 as int + 1);
        }
        let e2 = find_byte_from(data, 32, e1 + 1);
        let path = utf8_permissive(&data[e0 + 1..e1]);
        let version = utf8_permissive(&data[e1 + 1..e2]);
        Ok(RequestLine { method, path, version })
    }
}

} // verus!
