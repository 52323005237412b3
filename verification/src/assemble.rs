//! The request-header assembler: drives the request-line and header-field
//! decoders across a whole terminator-stripped header block.

use vstd::prelude::*;
use crate::errors::{HeaderParseError, RequestHeaderParseError};
use crate::scan::{crlf, find_newline, found_at, has_match, is_match_at, CR, LF};
use crate::parse::{spec_header_field, spec_request_line};
use crate::types::{Header, HeaderMap, RequestHeader, RequestHeaderView, RequestLine};

verus! {

/// The block's final line carries its two-byte terminator: the shape the
/// assembler requires of its callers.
pub open spec fn ends_with_crlf(s: Seq<u8>) -> bool {
    s.len() >= 2 && s[s.len() - 2] == CR && s[s.len() - 1] == LF
}

/// The offset of the leftmost line terminator in `s`, or the length of `s`
/// when no line terminator occurs.
pub open spec fn crlf_pos(s: Seq<u8>) -> nat
    decreases s.len(),
{
    if s.len() < 2 {
        s.len()
    } else if s[0] == CR && s[1] == LF {
        0
    } else {
        1 + crlf_pos(s.drop_first())
    }
}

/// [`crlf_pos`] names the leftmost terminator offset: a terminator stands
/// there when one fits, nothing matches to its left, and nothing matches at
/// all when none fits.
pub proof fn lemma_crlf_pos(s: Seq<u8>)
    ensures
        crlf_pos(s) <= s.len(),
        crlf_pos(s) + 2 <= s.len() ==> is_match_at(s, crlf(), crlf_pos(s) as int),
        forall|j: int| 0 <= j < crlf_pos(s) ==> !is_match_at(s, crlf(), j),
        crlf_pos(s) + 2 > s.len() ==> !has_match(s, crlf()),
    decreases s.len(),
{
    if s.len() < 2 {
        assert forall|j: int| !is_match_at(s, crlf(), j) by {}
    } else if s[0] == CR && s[1] == LF {
        assert(is_match_at(s, crlf(), 0));
    } else {
        let rest = s.drop_first();
        lemma_crlf_pos(rest);
        assert forall|j: int| 0 <= j implies is_match_at(s, crlf(), j + 1) == is_match_at(
            rest,
            crlf(),
            j,
        ) by {
            if is_match_at(s, crlf(), j + 1) {
                assert(rest[j] == s[j + 1]);
                assert(rest[j + 1] == s[j + 2]);
                assert(is_match_at(rest, crlf(), j));
            }
            if is_match_at(rest, crlf(), j) {
                assert(s[j + 1] == rest[j]);
                assert(s[j + 2] == rest[j + 1]);
                assert(is_match_at(s, crlf(), j + 1));
            }
        }
        assert(!is_match_at(s, crlf(), 0));
        assert forall|j: int| 0 <= j < crlf_pos(s) implies !is_match_at(s, crlf(), j) by {
            if j >= 1 {
                assert(!is_match_at(rest, crlf(), j - 1));
                assert(is_match_at(s, crlf(), j) == is_match_at(rest, crlf(), j - 1));
            }
        }
        if crlf_pos(s) + 2 <= s.len() {
            assert(is_match_at(rest, crlf(), crlf_pos(rest) as int));
            assert(is_match_at(s, crlf(), crlf_pos(rest) as int + 1) == is_match_at(
                rest,
                crlf(),
                crlf_pos(rest) as int,
            ));
        }
        if crlf_pos(s) + 2 > s.len() {
            assert forall|j: int| !is_match_at(s, crlf(), j) by {
                if j >= 1 {
                    assert(!is_match_at(rest, crlf(), j - 1));
                    assert(is_match_at(s, crlf(), j) == is_match_at(rest, crlf(), j - 1));
                }
            }
        }
    }
}

/// A found leftmost terminator pins down [`crlf_pos`]: the scanner's result
/// and the spec-level offset agree.
pub proof fn lemma_found_crlf_pos(s: Seq<u8>, r: Option<usize>)
    requires
        found_at(s, crlf(), r),
    ensures
        match r {
            Some(i) => crlf_pos(s) == i - 1,
            None => crlf_pos(s) == s.len() || crlf_pos(s) + 2 > s.len(),
        },
{
    lemma_crlf_pos(s);
    match r {
        Some(i) => {
            let j = i - 1;
            assert(is_match_at(s, crlf(), j));
            if crlf_pos(s) < j {
                assert(crlf_pos(s) + 2 <= s.len());
                assert(is_match_at(s, crlf(), crlf_pos(s) as int));
            }
            if crlf_pos(s) > j {
                assert(!is_match_at(s, crlf(), j));
            }
        },
        None => {
            if crlf_pos(s) + 2 <= s.len() {
                assert(is_match_at(s, crlf(), crlf_pos(s) as int));
                assert(has_match(s, crlf()));
            }
        },
    }
}

/// What decoding the header lines of `s` adds to the already decoded
/// entries `acc`: one mapping entry per line, a later duplicate name
/// overwriting an earlier one, or the first line's exact failure.
pub open spec fn spec_headers(s: Seq<u8>, acc: Map<Seq<char>, Seq<char>>) -> Result<
    Map<Seq<char>, Seq<char>>,
    HeaderParseError,
>
    decreases s.len(),
{
    if s.len() == 0 {
        Ok(acc)
    } else {
        let e = crlf_pos(s);
        if e + 2 > s.len() {
            Ok(acc)
        } else {
            match spec_header_field(s.subrange(0, e as int)) {
                Err(err) => Err(err),
                Ok(nv) => spec_headers(s.subrange(e + 2 as int, s.len() as int), acc.insert(nv.0, nv.1)),
            }
        }
    }
}

/// What assembling a whole header block yields: the decoded request line
/// and the header mapping, or the first failure, tagged by stage.
pub open spec fn spec_request(block: Seq<u8>) -> Result<
    RequestHeaderView,
    RequestHeaderParseError,
>
    recommends
        ends_with_crlf(block),
{
    let e = crlf_pos(block) as int;
    match spec_request_line(block.subrange(0, e)) {
        Err(x) => Err(RequestHeaderParseError::RequestLine(x)),
        Ok(rl) => match spec_headers(block.subrange(e + 2, block.len() as int), Map::empty()) {
            Err(x) => Err(RequestHeaderParseError::Header(x)),
            Ok(m) => Ok(RequestHeaderView { request_line: rl, headers: m }),
        },
    }
}

impl RequestHeader {
    /// Assemble a whole header block: decode the request line from the
    /// bytes before the first line terminator, then decode one header field
    /// per following line, a repeated name overwriting the earlier value.
    /// Any decoder failure aborts immediately, tagged by stage.
    ///
    /// The block runs from the request line through the last header line,
    /// each line carrying its terminator; the blank line that ends a header
    /// block is the caller's to remove.
    pub fn parse(data: &[u8]) -> (r: Result<RequestHeader, RequestHeaderParseError>)
        requires
            ends_with_crlf(data@),
        ensures
            match r {
                Ok(h) => spec_request(data@) == Ok::<_, RequestHeaderParseError>(h@) && h.wf(),
                Err(e) => spec_request(data@) == Err::<RequestHeaderView, _>(e),
            },
    {
        let ghost whole = data@;
        let nl = find_newline(data);
        proof {
            lemma_found_crlf_pos(whole, nl);
            assert(is_match_at(whole, crlf(), whole.len() - 2));
        }
        let nl_i = match nl {
            Some(i) => i,
            None => {
                proof {
                    lemma_crlf_pos(whole);
                }
                return Err(
                    RequestHeaderParseError::RequestLine(
                        crate::errors::RequestLineParseError::Method,
                    ),
                );
            },
        };
        let line = &data[0..nl_i - 1];
        proof {
            assert(line@ =~= whole.subrange(0, crlf_pos(whole) as int));
        }
        let request_line = match RequestLine::parse(line) {
            Ok(rl) => rl,
            Err(e) => {
                return Err(RequestHeaderParseError::RequestLine(e));
            },
        };
        let ghost rest0 = whole.subrange(nl_i + 1, whole.len() as int);
        proof {
            assert(nl_i < whole.len());
            assert(whole.len() == data.len());
        }
        let mut head: usize = nl_i + 1;
        let mut headers = HeaderMap::new();
        while head < data.len()
            invariant
                data@ == whole,
                data@.len() == data.len(),
                ends_with_crlf(whole),
                crlf_pos(whole) == nl_i - 1,
                spec_request_line(whole.subrange(0, nl_i - 1)) == Ok::<
                    crate::types::RequestLineView,
                    crate::errors::RequestLineParseError,
                >(request_line@),
                nl_i + 1 <= head <= whole.len(),
                head == whole.len() || head + 2 <= whole.len(),
                rest0 == whole.subrange(nl_i + 1, whole.len() as int),
                headers.wf(),
                spec_headers(rest0, Map::empty()) == spec_headers(
                    whole.subrange(head as int, whole.len() as int),
                    headers@,
                ),
            decreases whole.len() - head,
        {
            let ghost suffix = whole.subrange(head as int, whole.len() as int);
            proof {
                assert(suffix[suffix.len() - 2] == whole[whole.len() - 2]);
                assert(suffix[suffix.len() - 1] == whole[whole.len() - 1]);
                assert(is_match_at(suffix, crlf(), suffix.len() - 2));
            }
            let local = find_newline(&data[head..data.len()]);
            proof {
                lemma_found_crlf_pos(suffix, local);
            }
            let tail_rel = match local {
                Some(i) => i,
                None => {
                    proof {
                        lemma_crlf_pos(suffix);
                    }
                    return Err(RequestHeaderParseError::Header(HeaderParseError::NoSeparator));
                },
            };
            let ghost e = crlf_pos(suffix);
            proof {
                lemma_crlf_pos(suffix);
                assert(e == tail_rel - 1);
                assert(e + 2 <= suffix.len());
            }
            let line = &data[head..head + tail_rel - 1];
            proof {
                assert(line@ =~= suffix.subrange(0, e as int));
            }
            match Header::parse(line) {
                Err(err) => {
                    return Err(RequestHeaderParseError::Header(err));
                },
                Ok(h) => {
                    let Header(name, value) = h;
                    let ghost acc0 = headers@;
                    headers.insert(name, value);
                    proof {
                        assert(spec_headers(suffix, acc0) == spec_headers(
                            suffix.subrange(e + 2 as int, suffix.len() as int),
                            headers@,
                        ));
                    }
                },
            }
            let new_head = head + tail_rel + 1;
            proof {
                assert(whole.subrange(head + tail_rel + 1, whole.len() as int) =~= suffix.subrange(
                    e + 2 as int,
                    suffix.len() as int,
                ));
                if new_head + 2 > whole.len() && new_head < whole.len() {
                    assert(whole[head + e] == CR && whole[head + e + 1] == LF);
                    assert(suffix[e as int] == whole[head + e]);
                }
            }
            head = new_head;
        }
        proof {
            assert(whole.subrange(head as int, whole.len() as int) =~= Seq::<u8>::empty());
            assert(spec_headers(rest0, Map::empty()) == Ok::<_, HeaderParseError>(headers@));
        }
        Ok(RequestHeader { request_line, headers })
    }
}

} // verus!
