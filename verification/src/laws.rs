//! Crate-level laws: what the assembler recovers from any syntactically
//! valid request block, and the case-insensitivity of header-name
//! classification.

use vstd::prelude::*;
use vstd::utf8::{decode_utf8, valid_utf8};
use crate::assemble::{crlf_pos, lemma_crlf_pos, spec_headers, spec_request};
use crate::parse::{
    lower_bytes, lemma_scan_to, lemma_token_lower, scan_to, spec_header_field, spec_method,
    spec_name_text, spec_request_line, trim_spec,
};
use crate::scan::{crlf, is_match_at, spec_is_tchar, spec_is_token, CR};
use crate::types::{Method, RequestHeaderView, RequestLineView};
use crate::errors::{HeaderParseError, RequestHeaderParseError, RequestLineParseError};

verus! {

/// Two raw header names with the same lowercased bytes classify to the
/// identical map key, and one is a valid token exactly when the other is:
/// differently-cased spellings of one name cannot become distinct keys.
pub proof fn lemma_classify_case_insensitive(a: Seq<u8>, b: Seq<u8>)
    requires
        lower_bytes(a) == lower_bytes(b),
    ensures
        spec_name_text(a) == spec_name_text(b),
        spec_is_token(a) == spec_is_token(b),
{
    lemma_token_lower(a);
    lemma_token_lower(b);
}

/// Byte `x` occurs nowhere in `s`.
pub open spec fn avoids(s: Seq<u8>, x: u8) -> bool {
    forall|i: int| 0 <= i < s.len() ==> s[i] != x
}

/// One header field of a request description: raw name and value bytes.
pub struct HeaderDescription {
    pub name: Seq<u8>,
    pub value: Seq<u8>,
}

/// A syntactically valid request, described by its parts before rendering.
pub struct RequestDescription {
    pub method: Method,
    pub path: Seq<u8>,
    pub version: Seq<u8>,
    pub headers: Seq<HeaderDescription>,
}

/// A path or version field a valid request may carry: free of the space
/// that delimits fields and of the carriage return that ends lines, and
/// valid text, so that permissive decoding recovers it exactly.
pub open spec fn wf_field(s: Seq<u8>) -> bool {
    avoids(s, 32) && avoids(s, CR) && valid_utf8(s)
}

/// A header a valid request may carry: a token name, and a value free of
/// carriage returns, already stripped of surrounding whitespace, and valid
/// text.
pub open spec fn wf_header(h: HeaderDescription) -> bool {
    &&& spec_is_token(h.name)
    &&& avoids(h.value, CR)
    &&& valid_utf8(h.value)
    &&& trim_spec(h.value) == h.value
}

/// The whole description is syntactically valid.
pub open spec fn wf_description(d: RequestDescription) -> bool {
    &&& wf_field(d.path)
    &&& wf_field(d.version)
    &&& forall|i: int| 0 <= i < d.headers.len() ==> wf_header(#[trigger] d.headers[i])
}

/// The canonical spelling of a recognized method.
pub open spec fn method_bytes(m: Method) -> Seq<u8> {
    match m {
        Method::Get => seq![71u8, 69u8, 84u8],
        Method::Head => seq![72u8, 69u8, 65u8, 68u8],
        Method::Post => seq![80u8, 79u8, 83u8, 84u8],
    }
}

/// A rendered request line: method, path and version joined by single
/// spaces.
pub open spec fn render_request_line(d: RequestDescription) -> Seq<u8> {
    method_bytes(d.method) + seq![32u8] + d.path + seq![32u8] + d.version
}

/// A rendered header line: name, colon, value.
pub open spec fn render_header_line(h: HeaderDescription) -> Seq<u8> {
    h.name + seq![58u8] + h.value
}

/// The rendered header lines, each with its terminator.
pub open spec fn render_headers(hs: Seq<HeaderDescription>) -> Seq<u8>
    decreases hs.len(),
{
    if hs.len() == 0 {
        Seq::empty()
    } else {
        render_header_line(hs.first()) + crlf() + render_headers(hs.drop_first())
    }
}

/// The whole rendered header block, as the assembler takes it: the request
/// line and every header line, each with its terminator.
pub open spec fn render_block(d: RequestDescription) -> Seq<u8> {
    render_request_line(d) + crlf() + render_headers(d.headers)
}

/// The mapping the headers of a description should decode to: one entry
/// per distinct (case-insensitively compared) name, a later duplicate
/// overwriting an earlier one.
pub open spec fn expected_headers(
    hs: Seq<HeaderDescription>,
    acc: Map<Seq<char>, Seq<char>>,
) -> Map<Seq<char>, Seq<char>>
    decreases hs.len(),
{
    if hs.len() == 0 {
        acc
    } else {
        expected_headers(
            hs.drop_first(),
            acc.insert(spec_name_text(hs.first().name), decode_utf8(hs.first().value)),
        )
    }
}

/// The canonical spelling of a method spells that method and is free of
/// delimiters.
proof fn lemma_method_bytes(m: Method)
    ensures
        spec_method(method_bytes(m)) == Some(m),
        avoids(method_bytes(m), 32),
        avoids(method_bytes(m), CR),
{
    let mb = method_bytes(m);
    assert forall|i: int| 0 <= i < mb.len() implies mb[i] != 32 && mb[i] != CR by {
        if i == 0 {
        } else if i == 1 {
        } else if i == 2 {
        } else {
        }
    }
    assert forall|i: int| 0 <= i < mb.len() implies lower_bytes(mb)[i] == crate::parse::lower_byte(
        mb[i],
    ) by {}
    match m {
        Method::Get => {
            assert(lower_bytes(mb) =~= crate::parse::get_bytes());
        },
        Method::Head => {
            assert(lower_bytes(mb) =~= crate::parse::head_bytes());
            assert(lower_bytes(mb) != crate::parse::get_bytes());
        },
        Method::Post => {
            assert(lower_bytes(mb) =~= crate::parse::post_bytes());
            assert(lower_bytes(mb) != crate::parse::get_bytes());
            assert(lower_bytes(mb)[0] == 112);
            assert(crate::parse::head_bytes()[0] == 104);
            assert(lower_bytes(mb) != crate::parse::head_bytes());
        },
    }
}

/// An offset that holds a line terminator, with none to its left, is
/// exactly [`crlf_pos`].
proof fn lemma_crlf_pos_is_least(s: Seq<u8>, t: int)
    requires
        is_match_at(s, crlf(), t),
        forall|j: int| 0 <= j < t ==> !is_match_at(s, crlf(), j),
    ensures
        crlf_pos(s) == t,
{
    lemma_crlf_pos(s);
    if crlf_pos(s) + 2 > s.len() {
        assert(crate::scan::has_match(s, crlf()));
    }
    if crlf_pos(s) < t {
        assert(is_match_at(s, crlf(), crlf_pos(s) as int));
    }
}

/// An offset that holds byte `x`, with only other bytes between `start`
/// and it, is exactly where [`scan_to`] stops; with only other bytes to
/// the very end, [`scan_to`] stops at the length.
proof fn lemma_scan_to_exact(s: Seq<u8>, x: u8, start: int, p: int)
    requires
        0 <= start <= p <= s.len(),
        forall|j: int| start <= j < p ==> s[j] != x,
        p < s.len() ==> s[p] == x,
    ensures
        p < s.len() ==> scan_to(s, x, start) == p,
        p == s.len() ==> scan_to(s, x, start) == s.len(),
{
    lemma_scan_to(s, x, start);
    let r = scan_to(s, x, start);
    if p < s.len() {
        if r < p {
            assert(s[r] == x);
        }
        if r > p {
            assert(s[p] != x);
        }
    } else {
        if r < s.len() {
            assert(s[r] == x);
        }
    }
}

/// A line free of carriage returns, followed by a terminator and a rest,
/// splits exactly there: the terminator offset is the line length, the
/// bytes before it are the line, and the bytes after it are the rest.
proof fn lemma_line_split(line: Seq<u8>, rest: Seq<u8>)
    requires
        avoids(line, CR),
    ensures
        crlf_pos(line + crlf() + rest) == line.len(),
        (line + crlf() + rest).subrange(0, line.len() as int) == line,
        (line + crlf() + rest).subrange(
            line.len() as int + 2,
            (line + crlf() + rest).len() as int,
        ) == rest,
    decreases line.len(),
{
    let s = line + crlf() + rest;
    assert(s.len() == line.len() + 2 + rest.len());
    assert forall|j: int| 0 <= j < line.len() implies s[j] == line[j] by {
        assert((line + crlf())[j] == line[j]);
    }
    assert(s[line.len() as int] == CR) by {
        assert((line + crlf())[line.len() as int] == crlf()[0]);
    }
    assert(s[line.len() as int + 1] == crate::scan::LF) by {
        assert((line + crlf())[line.len() as int + 1] == crlf()[1]);
    }
    assert(is_match_at(s, crlf(), line.len() as int));
    assert forall|j: int| 0 <= j < line.len() implies !is_match_at(s, crlf(), j) by {
        assert(s[j] == line[j]);
        assert(line[j] != CR);
    }
    lemma_crlf_pos_is_least(s, line.len() as int);
    assert(s.subrange(0, line.len() as int) =~= line);
    assert forall|j: int| 0 <= j < rest.len() implies s[line.len() + 2 + j] == rest[j] by {}
    assert(s.subrange(line.len() as int + 2, s.len() as int) =~= rest);
}

/// The rendered request line decodes to exactly the described method, path
/// and version.
proof fn lemma_request_line_round_trip(d: RequestDescription)
    requires
        wf_description(d),
    ensures
        spec_request_line(render_request_line(d)) == Ok::<_, RequestLineParseError>(
            RequestLineView {
                method: d.method,
                path: decode_utf8(d.path),
                version: decode_utf8(d.version),
            },
        ),
        avoids(render_request_line(d), CR),
{
    let mb = method_bytes(d.method);
    let line = render_request_line(d);
    let p0 = mb.len() as int;
    let p1 = p0 + 1 + d.path.len();
    lemma_method_bytes(d.method);
    assert(line.len() == mb.len() + 2 + d.path.len() + d.version.len());
    assert forall|j: int| 0 <= j < mb.len() implies line[j] == mb[j] by {
        assert((mb + seq![32u8])[j] == mb[j]);
        assert((mb + seq![32u8] + d.path)[j] == (mb + seq![32u8])[j]);
        assert((mb + seq![32u8] + d.path + seq![32u8])[j] == (mb + seq![32u8] + d.path)[j]);
    }
    assert(line[p0] == 32) by {
        assert((mb + seq![32u8])[p0] == 32);
        assert((mb + seq![32u8] + d.path)[p0] == (mb + seq![32u8])[p0]);
        assert((mb + seq![32u8] + d.path + seq![32u8])[p0] == (mb + seq![32u8] + d.path)[p0]);
    }
    assert forall|j: int| 0 <= j < d.path.len() implies line[p0 + 1 + j] == d.path[j] by {
        assert((mb + seq![32u8] + d.path)[p0 + 1 + j] == d.path[j]);
        assert((mb + seq![32u8] + d.path + seq![32u8])[p0 + 1 + j] == (mb + seq![32u8]
            + d.path)[p0 + 1 + j]);
    }
    assert(line[p1] == 32) by {
        assert((mb + seq![32u8] + d.path + seq![32u8])[p1] == 32);
    }
    assert forall|j: int| 0 <= j < d.version.len() implies line[p1 + 1 + j] == d.version[j] by {}
    assert(avoids(line, CR)) by {
        assert forall|j: int| 0 <= j < line.len() implies line[j] != CR by {
            if j < p0 {
            } else if j == p0 || j == p1 {
            } else if j < p1 {
                assert(line[j] == d.path[j - p0 - 1]);
            } else {
                assert(line[j] == d.version[j - p1 - 1]);
            }
        }
    }
    lemma_scan_to_exact(line, 32, 0, p0);
    assert(line.subrange(0, p0) =~= mb);
    lemma_scan_to_exact(line, 32, p0 + 1, p1);
    assert(line.subrange(p0 + 1, p1) =~= d.path);
    lemma_scan_to_exact(line, 32, p1 + 1, line.len() as int);
    assert(line.subrange(p1 + 1, line.len() as int) =~= d.version);
}

/// The rendered header lines decode, on top of any already accumulated
/// mapping, to exactly the expected mapping.
proof fn lemma_headers_round_trip(hs: Seq<HeaderDescription>, acc: Map<Seq<char>, Seq<char>>)
    requires
        forall|i: int| 0 <= i < hs.len() ==> wf_header(#[trigger] hs[i]),
    ensures
        spec_headers(render_headers(hs), acc) == Ok::<_, HeaderParseError>(
            expected_headers(hs, acc),
        ),
    decreases hs.len(),
{
    if hs.len() == 0 {
    } else {
        let h = hs.first();
        let line = render_header_line(h);
        let rest = render_headers(hs.drop_first());
        let s = render_headers(hs);
        let c = h.name.len() as int;
        assert(wf_header(h));
        assert(line.len() == h.name.len() + 1 + h.value.len());
        assert forall|j: int| 0 <= j < h.name.len() implies line[j] == h.name[j] by {
            assert((h.name + seq![58u8])[j] == h.name[j]);
        }
        assert(line[c] == 58) by {
            assert((h.name + seq![58u8])[c] == 58);
        }
        assert forall|j: int| 0 <= j < h.value.len() implies line[c + 1 + j] == h.value[j] by {}
        assert(avoids(line, CR)) by {
            assert forall|j: int| 0 <= j < line.len() implies line[j] != CR by {
                if j < c {
                    assert(spec_is_tchar(h.name[j]));
                } else if j == c {
                } else {
                    assert(line[j] == h.value[j - c - 1]);
                }
            }
        }
        lemma_line_split(line, rest);
        assert(crlf_pos(s) == line.len());
        assert(s.subrange(0, line.len() as int) == line);
        assert(s.subrange(line.len() as int + 2, s.len() as int) == rest);
        assert(spec_header_field(line) == Ok::<_, HeaderParseError>(
            (spec_name_text(h.name), decode_utf8(h.value)),
        )) by {
            assert forall|j: int| 0 <= j < c implies line[j] != 58 by {
                assert(spec_is_tchar(h.name[j]));
            }
            lemma_scan_to_exact(line, 58, 0, c);
            assert(line.subrange(0, c) =~= h.name);
            assert(line.subrange(c + 1, line.len() as int) =~= h.value);
        }
        lemma_headers_round_trip(
            hs.drop_first(),
            acc.insert(spec_name_text(h.name), decode_utf8(h.value)),
        );
        assert(s.len() != 0);
    }
}

/// For any syntactically valid request, the assembler recovers exactly the
/// given method, path and version, and one map entry per distinct
/// (case-insensitively compared) header name, a later duplicate
/// overwriting an earlier one.
pub proof fn lemma_assembler_round_trip(d: RequestDescription)
    requires
        wf_description(d),
    ensures
        crate::assemble::ends_with_crlf(render_block(d)),
        spec_request(render_block(d)) == Ok::<_, RequestHeaderParseError>(
            RequestHeaderView {
                request_line: RequestLineView {
                    method: d.method,
                    path: decode_utf8(d.path),
                    version: decode_utf8(d.version),
                },
                headers: expected_headers(d.headers, Map::empty()),
            },
        ),
{
    let line = render_request_line(d);
    let rest = render_headers(d.headers);
    let block = render_block(d);
    lemma_request_line_round_trip(d);
    lemma_line_split(line, rest);
    assert(block.subrange(0, crlf_pos(block) as int) == line);
    assert(block.subrange(line.len() as int + 2, block.len() as int) == rest);
    lemma_headers_round_trip(d.headers, Map::empty());
    assert(crate::assemble::ends_with_crlf(block)) by {
        if rest.len() == 0 {
            assert(block[block.len() - 2] == (line + crlf())[line.len() as int]);
            assert(block[block.len() - 1] == (line + crlf())[line.len() as int + 1]);
        } else {
            lemma_render_headers_ends_crlf(d.headers);
            assert(block[block.len() - 2] == rest[rest.len() - 2]);
            assert(block[block.len() - 1] == rest[rest.len() - 1]);
        }
    }
}

/// Rendered header lines, when there are any, end with a line terminator.
proof fn lemma_render_headers_ends_crlf(hs: Seq<HeaderDescription>)
    requires
        hs.len() > 0,
    ensures
        render_headers(hs).len() >= 2,
        render_headers(hs)[render_headers(hs).len() - 2] == CR,
        render_headers(hs)[render_headers(hs).len() - 1] == crate::scan::LF,
    decreases hs.len(),
{
    let line = render_header_line(hs.first());
    let rest = render_headers(hs.drop_first());
    let s = render_headers(hs);
    if hs.drop_first().len() == 0 {
        assert(rest =~= Seq::<u8>::empty());
        assert(s.len() == line.len() + 2);
        assert(s[s.len() - 2] == (line + crlf())[line.len() as int]);
        assert(s[s.len() - 1] == (line + crlf())[line.len() as int + 1]);
    } else {
        lemma_render_headers_ends_crlf(hs.drop_first());
        assert(s[s.len() - 2] == rest[rest.len() - 2]);
        assert(s[s.len() - 1] == rest[rest.len() - 1]);
    }
}

} // verus!

