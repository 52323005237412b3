//! Byte-substring search and the header-name token alphabet.

use vstd::prelude::*;

verus! {

/// Carriage return.
pub const CR: u8 = 13;

/// Line feed.
pub const LF: u8 = 10;

/// The two-byte line terminator `\r\n`.
pub open spec fn crlf() -> Seq<u8> {
    seq![CR, LF]
}

/// The four-byte header-block terminator `\r\n\r\n`.
pub open spec fn crlf_crlf() -> Seq<u8> {
    seq![CR, LF, CR, LF]
}

/// `pattern` occurs in `data` starting at offset `j`.
pub open spec fn is_match_at(data: Seq<u8>, pattern: Seq<u8>, j: int) -> bool {
    &&& 0 <= j
    &&& j + pattern.len() <= data.len()
    &&& forall|k: int| 0 <= k < pattern.len() ==> data[j + k] == pattern[k]
}

/// `pattern` occurs somewhere in `data`.
pub open spec fn has_match(data: Seq<u8>, pattern: Seq<u8>) -> bool {
    exists|j: int| is_match_at(data, pattern, j)
}

/// What `find_pattern` returns: the index of the last byte of the leftmost
/// occurrence of `pattern` in `data`, or nothing when there is no occurrence.
pub open spec fn found_at(data: Seq<u8>, pattern: Seq<u8>, r: Option<usize>) -> bool {
    match r {
        Some(i) => {
            &&& pattern.len() <= i + 1 <= data.len()
            &&& is_match_at(data, pattern, i + 1 - pattern.len())
            &&& forall|j: int| 0 <= j < i + 1 - pattern.len() ==> !is_match_at(data, pattern, j)
        },
        None => !has_match(data, pattern),
    }
}

/// True when `pattern` occurs in `data` at offset `j`.
fn matches_at(data: &[u8], pattern: &[u8], j: usize) -> (r: bool)
    requires
        j + pattern@.len() <= data@.len(),
    ensures
        r == is_match_at(data@, pattern@, j as int),
{
    let mut k: usize = 0;
    while k < pattern.len()
        invariant
            data@.len() == data.len(),
            j + pattern@.len() <= data@.len(),
            0 <= k <= pattern@.len(),
            forall|m: int| 0 <= m < k ==> data@[j + m] == pattern@[m],
        decreases pattern@.len() - k,
    {
        if data[j + k] != pattern[k] {
            return false;
        }
        k = k + 1;
    }
    true
}

/// Index of the last byte of the first (leftmost) occurrence of a nonempty
/// `pattern` in `data`, or nothing when `pattern` does not occur, matching
/// exact substring semantics.
pub fn find_pattern(data: &[u8], pattern: &[u8]) -> (r: Option<usize>)
    requires
        pattern@.len() >= 1,
    ensures
        found_at(data@, pattern@, r),
{
    if pattern.len() > data.len() {
        return None;
    }
    let last = data.len() - pattern.len();
    let mut j: usize = 0;
    while j <= last
        invariant
            data@.len() == data.len(),
            pattern@.len() >= 1,
            pattern@.len() + last == data@.len(),
            0 <= j <= last + 1,
            forall|m: int| 0 <= m < j ==> !is_match_at(data@, pattern@, m),
        decreases last + 1 - j,
    {
        if matches_at(data, pattern, j) {
            return Some(j + pattern.len() - 1);
        }
        j = j + 1;
    }
    assert forall|m: int| !is_match_at(data@, pattern@, m) by {
        if is_match_at(data@, pattern@, m) {
            assert(0 <= m <= last);
        }
    }
    None
}

/// Index of the last byte of the leftmost `\r\n\r\n` in `data`, or nothing.
pub fn find_header_end(data: &[u8]) -> (r: Option<usize>)
    ensures
        found_at(data@, crlf_crlf(), r),
{
    let pattern: [u8; 4] = [CR, LF, CR, LF];
    let r = find_pattern(data, pattern.as_slice());
    assert(pattern@ =~= crlf_crlf());
    r
}

/// Index of the last byte of the leftmost `\r\n` in `data`, or nothing.
/// A bare carriage return without a following line feed does not match.
pub fn find_newline(data: &[u8]) -> (r: Option<usize>)
    ensures
        found_at(data@, crlf(), r),
{
    let pattern: [u8; 2] = [CR, LF];
    let r = find_pattern(data, pattern.as_slice());
    assert(pattern@ =~= crlf());
    r
}

/// The offset of the leftmost occurrence of `pat` in `s`, or the length of
/// `s` when `pat` does not occur.
pub open spec fn match_pos(s: Seq<u8>, pat: Seq<u8>) -> nat
    decreases s.len(),
{
    if s.len() < pat.len() {
        s.len()
    } else if is_match_at(s, pat, 0) {
        0
    } else {
        1 + match_pos(s.drop_first(), pat)
    }
}

/// [`match_pos`] names the leftmost occurrence offset: an occurrence stands
/// there when one fits, nothing matches to its left, and nothing matches at
/// all when none fits.
pub proof fn lemma_match_pos(s: Seq<u8>, pat: Seq<u8>)
    requires
        pat.len() >= 1,
    ensures
        match_pos(s, pat) <= s.len(),
        match_pos(s, pat) + pat.len() <= s.len() ==> is_match_at(s, pat, match_pos(s, pat) as int),
        forall|j: int| 0 <= j < match_pos(s, pat) ==> !is_match_at(s, pat, j),
        match_pos(s, pat) + pat.len() > s.len() ==> !has_match(s, pat),
    decreases s.len(),
{
    if s.len() < pat.len() {
        assert forall|j: int| !is_match_at(s, pat, j) by {}
    } else if is_match_at(s, pat, 0) {
    } else {
        let rest = s.drop_first();
        lemma_match_pos(rest, pat);
        assert forall|j: int| 0 <= j implies is_match_at(s, pat, j + 1) == is_match_at(
            rest,
            pat,
            j,
        ) by {
            if is_match_at(s, pat, j + 1) {
                assert forall|k: int| 0 <= k < pat.len() implies rest[j + k] == pat[k] by {
                    assert(rest[j + k] == s[j + 1 + k]);
                }
                assert(is_match_at(rest, pat, j));
            }
            if is_match_at(rest, pat, j) {
                assert forall|k: int| 0 <= k < pat.len() implies s[j + 1 + k] == pat[k] by {
                    assert(s[j + 1 + k] == rest[j + k]);
                }
                assert(is_match_at(s, pat, j + 1));
            }
        }
        assert forall|j: int| 0 <= j < match_pos(s, pat) implies !is_match_at(s, pat, j) by {
            if j >= 1 {
                assert(!is_match_at(rest, pat, j - 1));
                assert(is_match_at(s, pat, j) == is_match_at(rest, pat, j - 1));
            }
        }
        if match_pos(s, pat) + pat.len() <= s.len() {
            assert(is_match_at(rest, pat, match_pos(rest, pat) as int));
            assert(is_match_at(s, pat, match_pos(rest, pat) as int + 1) == is_match_at(
                rest,
                pat,
                match_pos(rest, pat) as int,
            ));
        }
        if match_pos(s, pat) + pat.len() > s.len() {
            assert forall|j: int| !is_match_at(s, pat, j) by {
                if j >= 1 {
                    assert(!is_match_at(rest, pat, j - 1));
                    assert(is_match_at(s, pat, j) == is_match_at(rest, pat, j - 1));
                }
            }
        }
    }
}

/// An offset that holds an occurrence, with none to its left, is exactly
/// [`match_pos`].
pub proof fn lemma_match_pos_is_least(s: Seq<u8>, pat: Seq<u8>, t: int)
    requires
        pat.len() >= 1,
        is_match_at(s, pat, t),
        forall|j: int| 0 <= j < t ==> !is_match_at(s, pat, j),
    ensures
        match_pos(s, pat) == t,
{
    lemma_match_pos(s, pat);
    if match_pos(s, pat) + pat.len() > s.len() {
        assert(has_match(s, pat));
    }
    if match_pos(s, pat) < t {
        assert(is_match_at(s, pat, match_pos(s, pat) as int));
    }
}

/// The scanner's result pins down [`match_pos`] and the other way round.
pub proof fn lemma_found_match_pos(s: Seq<u8>, pat: Seq<u8>, r: Option<usize>)
    requires
        pat.len() >= 1,
        found_at(s, pat, r),
    ensures
        match r {
            Some(i) => match_pos(s, pat) == i + 1 - pat.len(),
            None => match_pos(s, pat) + pat.len() > s.len(),
        },
{
    lemma_match_pos(s, pat);
    match r {
        Some(i) => {
            lemma_match_pos_is_least(s, pat, i + 1 - pat.len());
        },
        None => {
            if match_pos(s, pat) + pat.len() <= s.len() {
                assert(is_match_at(s, pat, match_pos(s, pat) as int));
                assert(has_match(s, pat));
            }
        },
    }
}

/// The restricted-ASCII token alphabet for header field names.
pub open spec fn spec_is_tchar(ch: u8) -> bool {
    ||| ch == 0x21
    ||| 0x23 <= ch <= 0x27
    ||| ch == 0x2a
    ||| ch == 0x2b
    ||| ch == 0x2d
    ||| ch == 0x2e
    ||| 0x30 <= ch <= 0x39
    ||| 0x41 <= ch <= 0x5a
    ||| 0x5e <= ch <= 0x60
    ||| 0x61 <= ch <= 0x7a
    ||| ch == 0x7c
    ||| ch == 0x7e
}

/// True only for bytes of the restricted-ASCII token alphabet:
/// `! # $ % & ' * + - . 0-9 A-Z ^ _ ` a-z | ~`.
pub fn is_tchar(ch: u8) -> (r: bool)
    ensures
        r == spec_is_tchar(ch),
{
    ch == 0x21
        || (0x23 <= ch && ch <= 0x27)
        || ch == 0x2a
        || ch == 0x2b
        || ch == 0x2d
        || ch == 0x2e
        || (0x30 <= ch && ch <= 0x39)
        || (0x41 <= ch && ch <= 0x5a)
        || (0x5e <= ch && ch <= 0x60)
        || (0x61 <= ch && ch <= 0x7a)
        || ch == 0x7c
        || ch == 0x7e
}

/// Every byte of the sequence belongs to the token alphabet.
/// An empty sequence passes vacuously.
pub open spec fn spec_is_token(data: Seq<u8>) -> bool {
    forall|i: int| 0 <= i < data.len() ==> spec_is_tchar(data[i])
}

/// True iff every byte of `data` satisfies [`is_tchar`]; an empty slice
/// passes vacuously.
pub fn is_token(data: &[u8]) -> (r: bool)
    ensures
        r == spec_is_token(data@),
{
    let mut i: usize = 0;
    while i < data.len()
        invariant
            0 <= i <= data@.len(),
            forall|m: int| 0 <= m < i ==> spec_is_tchar(data@[m]),
        decreases data@.len() - i,
    {
        if !is_tchar(data[i]) {
            return false;
        }
        i = i + 1;
    }
    true
}

} // verus!
