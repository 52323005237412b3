//! The structured request data model: methods, header names, header maps,
//! request lines and request headers.

use vstd::prelude::*;
use vstd::std_specs::cmp::PartialEqSpec;

verus! {

/// Text carried by a sequence of ASCII bytes, one character per byte.
pub open spec fn ascii_text(bytes: Seq<u8>) -> Seq<char> {
    bytes.map_values(|b: u8| b as char)
}

/// The bytes of the lowercase name `accept`.
pub open spec fn accept_bytes() -> Seq<u8> {
    seq![97u8, 99u8, 99u8, 101u8, 112u8, 116u8]
}

/// The bytes of the lowercase name `connection`.
pub open spec fn connection_bytes() -> Seq<u8> {
    seq![99u8, 111u8, 110u8, 110u8, 101u8, 99u8, 116u8, 105u8, 111u8, 110u8]
}

/// The bytes of the lowercase name `content-length`.
pub open spec fn content_length_bytes() -> Seq<u8> {
    seq![99u8, 111u8, 110u8, 116u8, 101u8, 110u8, 116u8, 45u8, 108u8, 101u8, 110u8, 103u8, 116u8, 104u8]
}

/// The bytes of the lowercase name `host`.
pub open spec fn host_bytes() -> Seq<u8> {
    seq![104u8, 111u8, 115u8, 116u8]
}

/// The bytes of the lowercase name `referer`.
pub open spec fn referer_bytes() -> Seq<u8> {
    seq![114u8, 101u8, 102u8, 101u8, 114u8, 101u8, 114u8]
}

/// The bytes of the lowercase name `user-agent`.
pub open spec fn user_agent_bytes() -> Seq<u8> {
    seq![117u8, 115u8, 101u8, 114u8, 45u8, 97u8, 103u8, 101u8, 110u8, 116u8]
}

/// The request methods of the closed set; anything else is a parse failure.
#[derive(Clone, Copy, Debug, PartialEq, Eq, Structural)]
pub enum Method {
    Get,
    Head,
    Post,
}

/// A header field name: the closed set of six well-known names, plus an open
/// fallback carrying any other valid token as normalized lowercase text.
/// Two differently-cased spellings of the same name compare equal, because
/// construction always lowercases first.
#[derive(Debug)]
pub enum HeaderName {
    Accept,
    Connection,
    ContentLength,
    Host,
    Referer,
    UserAgent,
    Other(String),
}

impl View for HeaderName {
    type V = Seq<char>;

    /// A header name is abstractly its normalized lowercase text.
    open spec fn view(&self) -> Seq<char> {
        match self {
            HeaderName::Accept => ascii_text(accept_bytes()),
            HeaderName::Connection => ascii_text(connection_bytes()),
            HeaderName::ContentLength => ascii_text(content_length_bytes()),
            HeaderName::Host => ascii_text(host_bytes()),
            HeaderName::Referer => ascii_text(referer_bytes()),
            HeaderName::UserAgent => ascii_text(user_agent_bytes()),
            HeaderName::Other(s) => s@,
        }
    }
}

/// The text is one of the six well-known header names.
pub open spec fn is_known_name(t: Seq<char>) -> bool {
    ||| t == ascii_text(accept_bytes())
    ||| t == ascii_text(connection_bytes())
    ||| t == ascii_text(content_length_bytes())
    ||| t == ascii_text(host_bytes())
    ||| t == ascii_text(referer_bytes())
    ||| t == ascii_text(user_agent_bytes())
}

impl HeaderName {
    /// The fallback variant never spells one of the six well-known names,
    /// so a name's text determines its variant.
    pub open spec fn wf(&self) -> bool {
        match self {
            HeaderName::Other(s) => !is_known_name(s@),
            _ => true,
        }
    }
}

impl PartialEq for HeaderName {
    /// Well-known names compare by variant; fallback names compare by their
    /// carried text.
    fn eq(&self, other: &Self) -> (r: bool) {
        match (self, other) {
            (HeaderName::Accept, HeaderName::Accept) => true,
            (HeaderName::Connection, HeaderName::Connection) => true,
            (HeaderName::ContentLength, HeaderName::ContentLength) => true,
            (HeaderName::Host, HeaderName::Host) => true,
            (HeaderName::Referer, HeaderName::Referer) => true,
            (HeaderName::UserAgent, HeaderName::UserAgent) => true,
            (HeaderName::Other(a), HeaderName::Other(b)) => *a == *b,
            _ => false,
        }
    }
}

impl vstd::std_specs::cmp::PartialEqSpecImpl for HeaderName {
    open spec fn obeys_eq_spec() -> bool {
        true
    }

    open spec fn eq_spec(&self, other: &Self) -> bool {
        match (self, other) {
            (HeaderName::Accept, HeaderName::Accept) => true,
            (HeaderName::Connection, HeaderName::Connection) => true,
            (HeaderName::ContentLength, HeaderName::ContentLength) => true,
            (HeaderName::Host, HeaderName::Host) => true,
            (HeaderName::Referer, HeaderName::Referer) => true,
            (HeaderName::UserAgent, HeaderName::UserAgent) => true,
            (HeaderName::Other(a), HeaderName::Other(b)) => a@ == b@,
            _ => false,
        }
    }
}

/// For names whose fallback variant is normalized, equality is exactly
/// equality of the abstract text.
pub proof fn lemma_name_eq_is_text_eq(a: &HeaderName, b: &HeaderName)
    requires
        a.wf(),
        b.wf(),
    ensures
        a.eq_spec(b) <==> a@ == b@,
{
    assert(ascii_text(accept_bytes()).len() == 6);
    assert(ascii_text(connection_bytes()).len() == 10);
    assert(ascii_text(content_length_bytes()).len() == 14);
    assert(ascii_text(host_bytes()).len() == 4);
    assert(ascii_text(referer_bytes()).len() == 7);
    assert(ascii_text(user_agent_bytes()).len() == 10);
    assert(ascii_text(connection_bytes())[0] == 'c');
    assert(ascii_text(user_agent_bytes())[0] == 'u');
}

/// One decoded header field: its classified name and its value text.
#[derive(Debug)]
pub struct Header(pub HeaderName, pub String);

/// A mapping from header names to trimmed value text with unique keys.
/// Inserting a name that is already present overwrites the previous value.
#[derive(Debug)]
pub struct HeaderMap {
    entries: Vec<(HeaderName, String)>,
}

/// The mapping held by a sequence of entries; a later entry with the same
/// name text wins over an earlier one.
pub open spec fn spec_map_of(entries: Seq<(HeaderName, String)>) -> Map<Seq<char>, Seq<char>>
    decreases entries.len(),
{
    if entries.len() == 0 {
        Map::empty()
    } else {
        spec_map_of(entries.drop_last()).insert(entries.last().0@, entries.last().1@)
    }
}

impl View for HeaderMap {
    type V = Map<Seq<char>, Seq<char>>;

    closed spec fn view(&self) -> Map<Seq<char>, Seq<char>> {
        spec_map_of(self.entries@)
    }
}

/// Every stored name is normalized and no two entries share a name text.
pub open spec fn entries_wf(entries: Seq<(HeaderName, String)>) -> bool {
    &&& forall|i: int| 0 <= i < entries.len() ==> (#[trigger] entries[i]).0.wf()
    &&& forall|i: int, j: int|
        0 <= i < j < entries.len() ==> (#[trigger] entries[i]).0@ != (#[trigger] entries[j]).0@
}

/// The domain of the mapping is exactly the set of stored name texts.
proof fn lemma_map_of_dom(entries: Seq<(HeaderName, String)>)
    ensures
        forall|k: Seq<char>|
            spec_map_of(entries).contains_key(k) <==> exists|i: int|
                0 <= i < entries.len() && (#[trigger] entries[i]).0@ == k,
    decreases entries.len(),
{
    if entries.len() > 0 {
        lemma_map_of_dom(entries.drop_last());
        assert forall|k: Seq<char>| spec_map_of(entries).contains_key(k) implies exists|i: int|
            0 <= i < entries.len() && (#[trigger] entries[i]).0@ == k by {
            if k == entries.last().0@ {
                assert(entries[entries.len() - 1].0@ == k);
            } else {
                assert(spec_map_of(entries.drop_last()).contains_key(k));
                let i = choose|i: int|
                    0 <= i < entries.drop_last().len() && (#[trigger] entries.drop_last()[i]).0@
                        == k;
                assert(entries.drop_last()[i] == entries[i]);
                assert(entries[i].0@ == k);
            }
        }
        assert forall|k: Seq<char>|
            (exists|i: int| 0 <= i < entries.len() && (#[trigger] entries[i]).0@ == k) implies
            spec_map_of(entries).contains_key(k) by {
            let i = choose|i: int| 0 <= i < entries.len() && (#[trigger] entries[i]).0@ == k;
            if i < entries.len() - 1 {
                assert(entries.drop_last()[i] == entries[i]);
                assert(entries.drop_last()[i].0@ == k);
                assert(spec_map_of(entries.drop_last()).contains_key(k));
            }
        }
    }
}

/// For unique keys, the value mapped to a stored name is that entry's value.
proof fn lemma_map_of_at(entries: Seq<(HeaderName, String)>, i: int)
    requires
        entries_wf(entries),
        0 <= i < entries.len(),
    ensures
        spec_map_of(entries).contains_key(entries[i].0@),
        spec_map_of(entries)[entries[i].0@] == entries[i].1@,
    decreases entries.len(),
{
    if i == entries.len() - 1 {
    } else {
        assert(entries.drop_last()[i] == entries[i]);
        lemma_map_of_at(entries.drop_last(), i);
        assert(entries[i].0@ != entries.last().0@);
    }
}

/// Removing the entry that holds a key removes that key from the mapping.
proof fn lemma_map_of_remove(entries: Seq<(HeaderName, String)>, i: int)
    requires
        entries_wf(entries),
        0 <= i < entries.len(),
    ensures
        spec_map_of(entries.remove(i)) == spec_map_of(entries).remove(entries[i].0@),
    decreases entries.len(),
{
    let k = entries[i].0@;
    lemma_map_of_dom(entries.drop_last());
    if i == entries.len() - 1 {
        assert(entries.remove(i) =~= entries.drop_last());
        assert(!spec_map_of(entries.drop_last()).contains_key(k));
        assert(spec_map_of(entries.drop_last()).insert(k, entries.last().1@).remove(k)
            =~= spec_map_of(entries.drop_last()));
    } else {
        assert(entries.remove(i).drop_last() =~= entries.drop_last().remove(i));
        assert(entries.drop_last()[i] == entries[i]);
        lemma_map_of_remove(entries.drop_last(), i);
        let last = entries.last();
        assert(entries.remove(i).last() == last);
        assert(spec_map_of(entries.remove(i)) == spec_map_of(
            entries.drop_last().remove(i),
        ).insert(last.0@, last.1@));
        assert(last.0@ != k);
        assert(spec_map_of(entries.drop_last()).remove(k).insert(last.0@, last.1@)
            =~= spec_map_of(entries.drop_last()).insert(last.0@, last.1@).remove(k));
    }
}

impl HeaderMap {
    /// All stored names are normalized and name texts are unique.
    pub closed spec fn wf(&self) -> bool {
        entries_wf(self.entries@)
    }

    /// An empty mapping.
    pub fn new() -> (r: HeaderMap)
        ensures
            r.wf(),
            r@ == Map::<Seq<char>, Seq<char>>::empty(),
    {
        HeaderMap { entries: Vec::new() }
    }

    /// The number of distinct header names stored.
    pub fn len(&self) -> (r: usize)
        requires
            self.wf(),
        ensures
            r == self@.dom().len(),
    {
        proof {
            lemma_entry_keys_len(self.entries@);
        }
        self.entries.len()
    }

    /// Store `value` under `name`, overwriting any previous value held
    /// under the same (case-insensitively equal) name.
    pub fn insert(&mut self, name: HeaderName, value: String)
        requires
            old(self).wf(),
            name.wf(),
        ensures
            final(self).wf(),
            final(self)@ == old(self)@.insert(name@, value@),
    {
        let ghost entries0 = self.entries@;
        let mut i: usize = 0;
        while i < self.entries.len()
            invariant
                self.entries@ == entries0,
                entries0 == old(self).entries@,
                entries_wf(entries0),
                name.wf(),
                0 <= i <= entries0.len(),
                forall|m: int| 0 <= m < i ==> (#[trigger] entries0[m]).0@ != name@,
            decreases entries0.len() - i,
        {
            let hit = self.entries[i].0 == name;
            proof {
                lemma_name_eq_is_text_eq(&entries0[i as int].0, &name);
            }
            if hit {
                proof {
                    lemma_map_of_remove(entries0, i as int);
                    lemma_map_of_dom(entries0);
                }
                self.entries.remove(i);
                self.entries.push((name, value));
                proof {
                    let cur = self.entries@;
                    assert(cur.drop_last() =~= entries0.remove(i as int));
                    assert forall|m: int, n: int| 0 <= m < n < cur.len() implies (
                    #[trigger] cur[m]).0@ != (#[trigger] cur[n]).0@ by {
                        if n < cur.len() - 1 {
                            lemma_remove_distinct(entries0, i as int, m, n);
                        } else {
                            lemma_remove_member(entries0, i as int, m);
                        }
                    }
                    assert forall|m: int| 0 <= m < cur.len() implies (
                    #[trigger] cur[m]).0.wf() by {
                        if m < cur.len() - 1 {
                            lemma_remove_member(entries0, i as int, m);
                        }
                    }
                    assert(entries_wf(cur));
                    assert(spec_map_of(cur) == spec_map_of(cur.drop_last()).insert(
                        name@,
                        value@,
                    ));
                    assert(spec_map_of(cur) == spec_map_of(entries0).remove(name@).insert(
                        name@,
                        value@,
                    ));
                    assert(spec_map_of(entries0).remove(name@).insert(name@, value@)
                        =~= spec_map_of(entries0).insert(name@, value@));
                }
                return ;
            }
            i = i + 1;
        }
        self.entries.push((name, value));
        proof {
            assert(self.entries@.drop_last() =~= entries0);
            lemma_map_of_dom(entries0);
        }
    }

    /// The value stored under `name`, when one is present.
    pub fn get(&self, name: &HeaderName) -> (r: Option<&String>)
        requires
            self.wf(),
            name.wf(),
        ensures
            match r {
                Some(v) => self@.contains_key(name@) && v@ == self@[name@],
                None => !self@.contains_key(name@),
            },
    {
        let ghost entries0 = self.entries@;
        let mut i: usize = 0;
        while i < self.entries.len()
            invariant
                self.entries@ == entries0,
                entries_wf(entries0),
                name.wf(),
                0 <= i <= entries0.len(),
                forall|m: int| 0 <= m < i ==> (#[trigger] entries0[m]).0@ != name@,
            decreases entries0.len() - i,
        {
            let hit = self.entries[i].0 == *name;
            proof {
                lemma_name_eq_is_text_eq(&entries0[i as int].0, name);
            }
            if hit {
                proof {
                    lemma_map_of_at(entries0, i as int);
                }
                return Some(&self.entries[i].1);
            }
            i = i + 1;
        }
        proof {
            lemma_map_of_dom(entries0);
        }
        None
    }
}

/// Distinct surviving positions of a removal still hold distinct name texts.
proof fn lemma_remove_distinct(entries: Seq<(HeaderName, String)>, i: int, m: int, n: int)
    requires
        entries_wf(entries),
        0 <= i < entries.len(),
        0 <= m < n < entries.len() - 1,
    ensures
        entries.remove(i)[m].0@ != entries.remove(i)[n].0@,
{
    assert(entries.remove(i)[m] == if m < i {
        entries[m]
    } else {
        entries[m + 1]
    });
    assert(entries.remove(i)[n] == if n < i {
        entries[n]
    } else {
        entries[n + 1]
    });
}

/// A surviving position of a removal holds a name text different from the
/// removed entry's.
proof fn lemma_remove_member(entries: Seq<(HeaderName, String)>, i: int, m: int)
    requires
        entries_wf(entries),
        0 <= i < entries.len(),
        0 <= m < entries.len() - 1,
    ensures
        entries.remove(i)[m].0@ != entries[i].0@,
        entries.remove(i)[m].0.wf(),
{
    assert(entries.remove(i)[m] == if m < i {
        entries[m]
    } else {
        entries[m + 1]
    });
}

/// With unique keys, the mapping has one key per entry.
proof fn lemma_entry_keys_len(entries: Seq<(HeaderName, String)>)
    requires
        entries_wf(entries),
    ensures
        spec_map_of(entries).dom().len() == entries.len(),
        spec_map_of(entries).dom().finite(),
    decreases entries.len(),
{
    if entries.len() > 0 {
        lemma_entry_keys_len(entries.drop_last());
        lemma_map_of_dom(entries.drop_last());
        assert(!spec_map_of(entries.drop_last()).contains_key(entries.last().0@));
        assert(spec_map_of(entries).dom() =~= spec_map_of(entries.drop_last()).dom().insert(
            entries.last().0@,
        ));
    } else {
        assert(spec_map_of(entries).dom() =~= Set::<Seq<char>>::empty());
    }
}

/// The abstract content of a request line.
pub struct RequestLineView {
    pub method: Method,
    pub path: Seq<char>,
    pub version: Seq<char>,
}

/// The first line of a request: its method, path and protocol version.
/// Path and version are decoded permissively: bytes that do not form valid
/// text are replaced, never rejected.
#[derive(Debug)]
pub struct RequestLine {
    pub method: Method,
    pub path: String,
    pub version: String,
}

impl View for RequestLine {
    type V = RequestLineView;

    open spec fn view(&self) -> RequestLineView {
        RequestLineView { method: self.method, path: self.path@, version: self.version@ }
    }
}

/// The abstract content of a parsed request header block.
pub struct RequestHeaderView {
    pub request_line: RequestLineView,
    pub headers: Map<Seq<char>, Seq<char>>,
}

/// A fully decoded request header block: the request line and the mapping
/// of header names to trimmed values.
#[derive(Debug)]
pub struct RequestHeader {
    pub request_line: RequestLine,
    pub headers: HeaderMap,
}

impl View for RequestHeader {
    type V = RequestHeaderView;

    open spec fn view(&self) -> RequestHeaderView {
        RequestHeaderView { request_line: self.request_line@, headers: self.headers@ }
    }
}

impl RequestHeader {
    /// The header mapping is well formed.
    pub open spec fn wf(&self) -> bool {
        self.headers.wf()
    }
}

/// A response to be serialized back to the transport by a responder
/// collaborator outside this crate.
pub struct Response {
    pub headers: HeaderMap,
    pub body: Vec<u8>,
}

} // verus!
