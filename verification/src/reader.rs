//! The bounded-buffer reader: a connection-level state machine that
//! accumulates transport bytes until the header terminator appears or the
//! buffer is exhausted, and extracts the body via its declared length.
//!
//! The transport itself stays outside this crate: a caller performs one
//! read, wraps what happened as a [`ReadEvent`], and hands it to
//! [`HeaderReader::on_read`]. The resulting classification is a function of
//! the accumulated bytes alone, so it does not depend on how the stream was
//! chunked; [`lemma_chunking_independent`] and [`lemma_overflow_exhausts`]
//! state that precisely.

use vstd::prelude::*;
use crate::scan::{
    crlf_crlf, find_header_end, has_match, is_match_at, lemma_found_match_pos, lemma_match_pos,
    lemma_match_pos_is_least, match_pos, CR, LF,
};

verus! {

/// What one transport read into the unfilled suffix of the buffer yielded:
/// some bytes, an orderly close before any bytes, or a read failure.
pub enum ReadEvent {
    /// The read delivered these bytes.
    Data(Vec<u8>),
    /// The peer closed the connection: the read delivered zero bytes.
    Closed,
    /// The transport reported a read failure.
    Failed,
}

/// The connection-level reading state. All states but `Reading` are
/// terminal.
#[derive(Clone, Copy, Debug, PartialEq, Eq, Structural)]
pub enum ReadState {
    /// No terminator yet and room remains: issue another read.
    Reading,
    /// The header terminator was found; its first byte stands at the given
    /// offset of the accumulated bytes.
    HeaderFound(usize),
    /// The buffer filled without a terminator: a client error.
    BufferExhausted,
    /// The peer closed mid-header: a client error.
    ConnectionClosed,
    /// The transport failed: fatal for this connection.
    IoError,
}

/// The offset of the leftmost header terminator in the accumulated bytes,
/// or their length when none occurs.
pub open spec fn term_pos(bytes: Seq<u8>) -> nat {
    match_pos(bytes, crlf_crlf())
}

/// The classification of accumulated bytes against a capacity: terminator
/// found, buffer exhausted, or still reading.
pub open spec fn spec_scan(bytes: Seq<u8>, cap: nat) -> ReadState {
    if term_pos(bytes) + 4 <= bytes.len() {
        ReadState::HeaderFound(term_pos(bytes) as usize)
    } else if bytes.len() >= cap {
        ReadState::BufferExhausted
    } else {
        ReadState::Reading
    }
}

/// A fixed-capacity buffer accumulating one connection's bytes, classified
/// after every read.
#[derive(Debug)]
pub struct HeaderReader {
    buf: Vec<u8>,
    cap: usize,
    state: ReadState,
}

impl HeaderReader {
    /// The bytes accumulated so far.
    pub closed spec fn bytes(&self) -> Seq<u8> {
        self.buf@
    }

    /// The fixed capacity the reader was made with.
    pub closed spec fn capacity(&self) -> nat {
        self.cap as nat
    }

    /// The current state.
    pub closed spec fn status_spec(&self) -> ReadState {
        self.state
    }

    /// The accumulated bytes fit the capacity, and any state other than the
    /// two event-driven terminal ones is their classification.
    pub closed spec fn wf(&self) -> bool {
        &&& self.buf@.len() <= self.cap
        &&& (self.state is ConnectionClosed || self.state is IoError || self.state == spec_scan(
            self.buf@,
            self.cap as nat,
        ))
    }

    /// A fresh reader for one connection, with a fixed capacity and nothing
    /// accumulated.
    pub fn new(cap: usize) -> (r: HeaderReader)
        ensures
            r.wf(),
            r.bytes() == Seq::<u8>::empty(),
            r.capacity() == cap,
            r.status_spec() == spec_scan(Seq::<u8>::empty(), cap as nat),
    {
        let state = if cap == 0 {
            ReadState::BufferExhausted
        } else {
            ReadState::Reading
        };
        proof {
            lemma_match_pos(Seq::<u8>::empty(), crlf_crlf());
        }
        HeaderReader { buf: Vec::new(), cap, state }
    }

    /// How many bytes the unfilled suffix of the buffer still takes: the
    /// most the next read may deliver.
    pub fn remaining(&self) -> (r: usize)
        requires
            self.wf(),
        ensures
            r == self.capacity() - self.bytes().len(),
    {
        self.cap - self.buf.len()
    }

    /// The current state.
    pub fn status(&self) -> (r: ReadState)
        ensures
            r == self.status_spec(),
    {
        self.state
    }

    /// Drive the state machine by one transport read. A close becomes
    /// `ConnectionClosed`, a failure `IoError`; delivered bytes extend the
    /// accumulated prefix, which is then classified anew: terminator found,
    /// buffer full without one, or still reading.
    pub fn on_read(&mut self, ev: ReadEvent)
        requires
            old(self).wf(),
            old(self).status_spec() is Reading,
            ev matches ReadEvent::Data(c) ==> old(self).bytes().len() + c@.len()
                <= old(self).capacity(),
        ensures
            final(self).wf(),
            final(self).capacity() == old(self).capacity(),
            match ev {
                ReadEvent::Closed => final(self).bytes() == old(self).bytes()
                    && final(self).status_spec() == ReadState::ConnectionClosed,
                ReadEvent::Failed => final(self).bytes() == old(self).bytes()
                    && final(self).status_spec() == ReadState::IoError,
                ReadEvent::Data(c) => final(self).bytes() == old(self).bytes() + c@
                    && final(self).status_spec() == spec_scan(
                    final(self).bytes(),
                    final(self).capacity(),
                ),
            },
    {
        match ev {
            ReadEvent::Closed => {
                self.state = ReadState::ConnectionClosed;
            },
            ReadEvent::Failed => {
                self.state = ReadState::IoError;
            },
            ReadEvent::Data(c) => {
                self.buf.extend_from_slice(c.as_slice());
                let found = find_header_end(self.buf.as_slice());
                proof {
                    lemma_found_match_pos(self.buf@, crlf_crlf(), found);
                    lemma_match_pos(self.buf@, crlf_crlf());
                }
                self.state = match found {
                    Some(i) => ReadState::HeaderFound(i - 3),
                    None => {
                        if self.buf.len() >= self.cap {
                            ReadState::BufferExhausted
                        } else {
                            ReadState::Reading
                        }
                    },
                };
            },
        }
    }

    /// The header block: everything before the terminator, the final line's
    /// own terminator included, ready for the assembler.
    pub fn header_block(&self) -> (r: &[u8])
        requires
            self.wf(),
            self.status_spec() is HeaderFound,
        ensures
            self.status_spec() matches ReadState::HeaderFound(j) ==> r@ == self.bytes().subrange(
                0,
                j + 2,
            ) && crate::assemble::ends_with_crlf(r@) && j + 4 <= self.bytes().len(),
    {
        let j = match self.status() {
            ReadState::HeaderFound(j) => j,
            _ => 0,
        };
        proof {
            lemma_match_pos(self.buf@, crlf_crlf());
            assert(is_match_at(self.buf@, crlf_crlf(), j as int));
            assert(self.buf@[j as int] == CR);
            assert(self.buf@[j as int + 1] == LF);
        }
        let r = &self.buf.as_slice()[0..j + 2];
        proof {
            assert(r@[j as int] == self.buf@[j as int]);
            assert(r@[j as int + 1] == self.buf@[j as int + 1]);
        }
        r
    }

    /// The body declared to hold `len` bytes: the bytes immediately after
    /// the terminator, from the same buffer. A declared length exceeding
    /// what is buffered is a framing error, yielding nothing — never a
    /// silent truncation or an out-of-bounds read.
    pub fn body(&self, len: usize) -> (r: Option<&[u8]>)
        requires
            self.wf(),
            self.status_spec() is HeaderFound,
        ensures
            self.status_spec() matches ReadState::HeaderFound(j) ==> match r {
                Some(b) => j + 4 + len <= self.bytes().len() && b@ == self.bytes().subrange(
                    j + 4,
                    j + 4 + len,
                ),
                None => j + 4 + len > self.bytes().len(),
            },
    {
        let j = match self.status() {
            ReadState::HeaderFound(j) => j,
            _ => 0,
        };
        proof {
            lemma_match_pos(self.buf@, crlf_crlf());
        }
        if len <= self.buf.len() - (j + 4) {
            Some(&self.buf.as_slice()[j + 4..j + 4 + len])
        } else {
            None
        }
    }
}

/// The whole byte stream that a sequence of reads delivered, in order.
pub open spec fn concat_chunks(chunks: Seq<Seq<u8>>) -> Seq<u8>
    decreases chunks.len(),
{
    if chunks.len() == 0 {
        Seq::empty()
    } else {
        concat_chunks(chunks.drop_last()) + chunks.last()
    }
}

/// The bytes a reader has accumulated after the given reads: each chunk
/// extends the buffer while the classification still reads, and is ignored
/// once a terminal state was reached.
pub open spec fn run_bytes(cap: nat, chunks: Seq<Seq<u8>>) -> Seq<u8>
    decreases chunks.len(),
{
    if chunks.len() == 0 {
        Seq::empty()
    } else {
        let prev = run_bytes(cap, chunks.drop_last());
        if spec_scan(prev, cap) is Reading {
            prev + chunks.last()
        } else {
            prev
        }
    }
}

/// The classification after the given reads.
pub open spec fn run_state(cap: nat, chunks: Seq<Seq<u8>>) -> ReadState {
    spec_scan(run_bytes(cap, chunks), cap)
}

/// The reads form one deliverable chunking: while the reader still reads,
/// each chunk fits the unfilled suffix of the buffer.
pub open spec fn valid_chunking(cap: nat, chunks: Seq<Seq<u8>>) -> bool {
    forall|k: int|
        0 <= k < chunks.len() && spec_scan(run_bytes(cap, #[trigger] chunks.take(k)), cap)
            is Reading ==> run_bytes(cap, chunks.take(k)).len() + chunks[k].len() <= cap
}

/// The classification a byte stream is bound to reach under any deliverable
/// chunking: the leftmost terminator that fits the buffer, an exhausted
/// buffer, or still reading.
pub open spec fn stream_state(cap: nat, stream: Seq<u8>) -> ReadState {
    if term_pos(stream) + 4 <= stream.len() && term_pos(stream) + 4 <= cap {
        ReadState::HeaderFound(term_pos(stream) as usize)
    } else if stream.len() >= cap {
        ReadState::BufferExhausted
    } else {
        ReadState::Reading
    }
}

/// `a` is an initial segment of `b`.
pub open spec fn is_prefix_of(a: Seq<u8>, b: Seq<u8>) -> bool {
    a.len() <= b.len() && a == b.subrange(0, a.len() as int)
}

/// Extending a sequence beyond a terminator that is already complete moves
/// no terminator: the leftmost offset stays where it was.
proof fn lemma_term_pos_extend(s: Seq<u8>, u: Seq<u8>)
    requires
        is_prefix_of(s, u),
        term_pos(s) + 4 <= s.len(),
    ensures
        term_pos(u) == term_pos(s),
{
    let t = term_pos(s) as int;
    lemma_match_pos(s, crlf_crlf());
    assert(is_match_at(s, crlf_crlf(), t));
    assert forall|k: int| 0 <= k < 4 implies u[t + k] == crlf_crlf()[k] by {
        assert(u.subrange(0, s.len() as int)[t + k] == u[t + k]);
    }
    assert(is_match_at(u, crlf_crlf(), t));
    assert forall|j: int| 0 <= j < t implies !is_match_at(u, crlf_crlf(), j) by {
        if is_match_at(u, crlf_crlf(), j) {
            assert(j + 4 <= s.len());
            assert forall|k: int| 0 <= k < 4 implies s[j + k] == crlf_crlf()[k] by {
                assert(s[j + k] == u.subrange(0, s.len() as int)[j + k]);
            }
            assert(is_match_at(s, crlf_crlf(), j));
        }
    }
    lemma_match_pos_is_least(u, crlf_crlf(), t);
}

/// Restricting a deliverable chunking to all reads but the last keeps it
/// deliverable.
proof fn lemma_valid_drop_last(cap: nat, chunks: Seq<Seq<u8>>)
    requires
        chunks.len() > 0,
        valid_chunking(cap, chunks),
    ensures
        valid_chunking(cap, chunks.drop_last()),
{
    let rest = chunks.drop_last();
    assert forall|k: int|
        0 <= k < rest.len() && spec_scan(run_bytes(cap, #[trigger] rest.take(k)), cap)
            is Reading implies run_bytes(cap, rest.take(k)).len() + rest[k].len() <= cap by {
        assert(rest.take(k) =~= chunks.take(k));
        assert(rest[k] == chunks[k]);
    }
}

/// What a reader accumulates is an initial segment of the delivered
/// stream, and is the whole stream for as long as it still reads.
proof fn lemma_run_prefix(cap: nat, chunks: Seq<Seq<u8>>)
    ensures
        is_prefix_of(run_bytes(cap, chunks), concat_chunks(chunks)),
        spec_scan(run_bytes(cap, chunks), cap) is Reading ==> run_bytes(cap, chunks)
            == concat_chunks(chunks),
    decreases chunks.len(),
{
    if chunks.len() == 0 {
        assert(run_bytes(cap, chunks) =~= concat_chunks(chunks).subrange(0, 0));
    } else {
        let prev = run_bytes(cap, chunks.drop_last());
        let sp = concat_chunks(chunks.drop_last());
        let s = concat_chunks(chunks);
        lemma_run_prefix(cap, chunks.drop_last());
        if spec_scan(prev, cap) is Reading {
            assert(prev == sp);
            assert(run_bytes(cap, chunks) == s);
            assert(run_bytes(cap, chunks) =~= s.subrange(0, run_bytes(cap, chunks).len() as int));
        } else {
            assert(run_bytes(cap, chunks) == prev);
            assert(prev =~= s.subrange(0, prev.len() as int)) by {
                assert(prev == sp.subrange(0, prev.len() as int));
                assert forall|i: int| 0 <= i < prev.len() implies prev[i] == s[i] by {
                    assert(sp.subrange(0, prev.len() as int)[i] == sp[i]);
                    assert(s[i] == sp[i]);
                }
            }
        }
    }
}

/// Under any deliverable chunking, the classification a reader reaches is
/// the one the byte stream itself determines.
pub proof fn lemma_run_characterizes(cap: nat, chunks: Seq<Seq<u8>>)
    requires
        valid_chunking(cap, chunks),
        concat_chunks(chunks).len() <= usize::MAX,
    ensures
        run_state(cap, chunks) == stream_state(cap, concat_chunks(chunks)),
        run_bytes(cap, chunks).len() <= cap,
    decreases chunks.len(),
{
    let s = concat_chunks(chunks);
    let u = run_bytes(cap, chunks);
    if chunks.len() == 0 {
        lemma_match_pos(u, crlf_crlf());
    } else {
        let prev = run_bytes(cap, chunks.drop_last());
        let sp = concat_chunks(chunks.drop_last());
        lemma_valid_drop_last(cap, chunks);
        assert(concat_chunks(chunks.drop_last()).len() <= concat_chunks(chunks).len());
        lemma_run_characterizes(cap, chunks.drop_last());
        lemma_run_prefix(cap, chunks.drop_last());
        lemma_run_prefix(cap, chunks);
        if spec_scan(prev, cap) is Reading {
            assert(prev == sp);
            assert(u == prev + chunks.last());
            assert(u == s);
            assert(chunks.take(chunks.len() - 1) =~= chunks.drop_last());
            assert(prev.len() + chunks.last().len() <= cap);
        } else {
            assert(u == prev);
            assert(is_prefix_of(sp, s)) by {
                assert(sp =~= s.subrange(0, sp.len() as int));
            }
            match spec_scan(prev, cap) {
                ReadState::HeaderFound(t0) => {
                    let t = term_pos(prev);
                    assert(stream_state(cap, sp) == spec_scan(prev, cap));
                    assert(term_pos(sp) == t && term_pos(sp) + 4 <= sp.len() && term_pos(sp) + 4
                        <= cap);
                    lemma_term_pos_extend(sp, s);
                    assert(stream_state(cap, s) == stream_state(cap, sp));
                },
                ReadState::BufferExhausted => {
                    assert(stream_state(cap, sp) == ReadState::BufferExhausted);
                    assert(s.len() >= sp.len() >= cap);
                    if term_pos(s) + 4 <= s.len() && term_pos(s) + 4 <= cap {
                        let p = term_pos(s) as int;
                        lemma_match_pos(s, crlf_crlf());
                        assert(is_match_at(s, crlf_crlf(), p));
                        assert forall|k: int| 0 <= k < 4 implies sp[p + k] == crlf_crlf()[k] by {
                            assert(sp.subrange(0, sp.len() as int)[p + k] == sp[p + k]);
                            assert(sp[p + k] == s.subrange(0, sp.len() as int)[p + k]);
                        }
                        assert(is_match_at(sp, crlf_crlf(), p));
                        lemma_match_pos(sp, crlf_crlf());
                        if term_pos(sp) + 4 > sp.len() {
                            assert(has_match(sp, crlf_crlf()));
                        }
                        assert(term_pos(sp) <= p) by {
                            if term_pos(sp) > p {
                                assert(!is_match_at(sp, crlf_crlf(), p));
                            }
                        }
                    }
                },
                _ => {},
            }
        }
    }
}

/// Feeding one byte stream under two deliverable chunkings reaches the
/// same classification; when that classification is a found header, the
/// two readers hold the identical header block, so the assembler decodes
/// the identical result or fails identically.
pub proof fn lemma_chunking_independent(cap: nat, a: Seq<Seq<u8>>, b: Seq<Seq<u8>>)
    requires
        valid_chunking(cap, a),
        valid_chunking(cap, b),
        concat_chunks(a) == concat_chunks(b),
        concat_chunks(a).len() <= usize::MAX,
    ensures
        run_state(cap, a) == run_state(cap, b),
        run_state(cap, a) matches ReadState::HeaderFound(t) ==> run_bytes(cap, a).subrange(
            0,
            t + 2,
        ) == run_bytes(cap, b).subrange(0, t + 2),
        run_state(cap, a) matches ReadState::HeaderFound(t)
            ==> crate::assemble::spec_request(run_bytes(cap, a).subrange(0, t + 2))
            == crate::assemble::spec_request(run_bytes(cap, b).subrange(0, t + 2)),
{
    lemma_run_characterizes(cap, a);
    lemma_run_characterizes(cap, b);
    lemma_run_prefix(cap, a);
    lemma_run_prefix(cap, b);
    let s = concat_chunks(a);
    match run_state(cap, a) {
        ReadState::HeaderFound(t) => {
            assert(term_pos(run_bytes(cap, a)) == t && t + 4 <= run_bytes(cap, a).len());
            assert(term_pos(run_bytes(cap, b)) == t && t + 4 <= run_bytes(cap, b).len());
            assert(run_bytes(cap, a).subrange(0, t + 2) =~= s.subrange(0, t + 2)) by {
                assert forall|i: int| 0 <= i < t + 2 implies run_bytes(cap, a)[i] == s[i] by {
                    assert(run_bytes(cap, a)[i] == s.subrange(
                        0,
                        run_bytes(cap, a).len() as int,
                    )[i]);
                }
            }
            assert(run_bytes(cap, b).subrange(0, t + 2) =~= s.subrange(0, t + 2)) by {
                assert forall|i: int| 0 <= i < t + 2 implies run_bytes(cap, b)[i] == s[i] by {
                    assert(run_bytes(cap, b)[i] == s.subrange(
                        0,
                        run_bytes(cap, b).len() as int,
                    )[i]);
                }
            }
        },
        _ => {},
    }
}

/// Delivering bytes that reach the buffer's capacity without ever
/// completing the terminator exhausts the buffer — under any deliverable
/// chunking, and without any out-of-bounds access.
pub proof fn lemma_overflow_exhausts(cap: nat, chunks: Seq<Seq<u8>>)
    requires
        valid_chunking(cap, chunks),
        !has_match(concat_chunks(chunks), crlf_crlf()),
        concat_chunks(chunks).len() >= cap,
        concat_chunks(chunks).len() <= usize::MAX,
    ensures
        run_state(cap, chunks) == ReadState::BufferExhausted,
{
    lemma_run_characterizes(cap, chunks);
    let s = concat_chunks(chunks);
    lemma_match_pos(s, crlf_crlf());
    if term_pos(s) + 4 <= s.len() {
        assert(is_match_at(s, crlf_crlf(), term_pos(s) as int));
        assert(has_match(s, crlf_crlf()));
    }
}

} // verus!
