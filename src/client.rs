//! The client's side of a benchmark round: counting the responses that
//! arrive for one request, across reads that may split them anywhere.
use vstd::prelude::*;

use crate::stream::{
    batch_bytes, lemma_frame_len_extends, lemma_scan_batch, lemma_scan_bounds, lemma_scan_concat,
    lemma_scan_malformed_at, payloads_fit, scan_frames, Scan,
};
use crate::wire::{append_range, frame_at, CodecError};

verus! {

/// Why a benchmark round failed.
#[derive(Debug, PartialEq, Eq, Structural, Clone, Copy)]
pub enum ClientError {
    /// The connection to the server could not be made.
    ConnectionError,
    /// The server closed the connection before all responses arrived.
    ConnectionClosedEarly { received: u32, expected: u32 },
    /// A response carried a negative length prefix; `received` whole
    /// responses came before it.
    MalformedResponse { received: u32, expected: u32 },
}

/// What a response stream has seen: bytes of a response not yet whole, the
/// number of whole responses counted, and the number asked for.
pub struct StreamState {
    pub pending: Seq<u8>,
    pub received: nat,
    pub expected: nat,
}

/// The state before any byte has arrived.
pub open spec fn initial_state(expected: nat) -> StreamState {
    StreamState { pending: Seq::empty(), received: 0, expected }
}

/// The state after `chunk` arrives in state `st`: whole responses are counted
/// up to the number asked for, and the bytes after them are kept. Counting
/// stops at a negative length prefix, which stays at the head of what is kept.
pub open spec fn feed_state(st: StreamState, chunk: Seq<u8>) -> StreamState {
    let all = st.pending + chunk;
    let s = scan_frames(all, (st.expected - st.received) as nat);
    StreamState {
        pending: all.skip(s.used as int),
        received: st.received + s.count,
        expected: st.expected,
    }
}

/// Whether counting after `chunk` arrives in state `st` stops at a negative
/// length prefix.
pub open spec fn feed_fails(st: StreamState, chunk: Seq<u8>) -> bool {
    scan_frames(st.pending + chunk, (st.expected - st.received) as nat).malformed
}

/// The bytes of `chunks`, one read after another.
pub open spec fn concat_chunks(chunks: Seq<Seq<u8>>) -> Seq<u8>
    decreases chunks.len(),
{
    if chunks.len() == 0 {
        Seq::empty()
    } else {
        concat_chunks(chunks.drop_last()) + chunks.last()
    }
}

/// The state after the reads `chunks` arrive, in order, in state `st`.
pub open spec fn feed_all(st: StreamState, chunks: Seq<Seq<u8>>) -> StreamState
    decreases chunks.len(),
{
    if chunks.len() == 0 {
        st
    } else {
        feed_state(feed_all(st, chunks.drop_last()), chunks.last())
    }
}

/// Whether any of the reads `chunks`, arriving in order in state `st`, meets a
/// negative length prefix.
pub open spec fn feed_all_fails(st: StreamState, chunks: Seq<Seq<u8>>) -> bool
    decreases chunks.len(),
{
    if chunks.len() == 0 {
        false
    } else {
        feed_all_fails(st, chunks.drop_last()) || feed_fails(
            feed_all(st, chunks.drop_last()),
            chunks.last(),
        )
    }
}

/// Counts the responses to one request as their bytes arrive.
pub struct ResponseStream {
    pending: Vec<u8>,
    received: u32,
    expected: u32,
}

impl View for ResponseStream {
    type V = StreamState;

    closed spec fn view(&self) -> StreamState {
        StreamState {
            pending: self.pending@,
            received: self.received as nat,
            expected: self.expected as nat,
        }
    }
}

impl ResponseStream {
    #[verifier::type_invariant]
    spec fn inv(&self) -> bool {
        self.received <= self.expected
    }

    /// A stream that waits for `expected` responses.
    pub fn new(expected: u32) -> (r: ResponseStream)
        ensures
            r@ == initial_state(expected as nat),
    {
        ResponseStream { pending: Vec::new(), received: 0, expected }
    }

    /// Number of whole responses counted so far.
    pub fn received(&self) -> (r: u32)
        ensures
            r == self@.received,
            r <= self@.expected,
    {
        proof {
            use_type_invariant(self);
        }
        self.received
    }

    /// Number of responses asked for.
    pub fn expected(&self) -> (r: u32)
        ensures
            r == self@.expected,
    {
        self.expected
    }

    /// Whether every response asked for has been counted.
    pub fn is_complete(&self) -> (r: bool)
        ensures
            r == (self@.received >= self@.expected),
    {
        self.received >= self.expected
    }

    /// Takes the bytes of one read and counts the whole responses they
    /// complete. Returns whether every response asked for has now been
    /// counted; fails on a negative length prefix, with the count of the
    /// whole responses before it.
    pub fn feed(&mut self, chunk: &[u8]) -> (r: Result<bool, ClientError>)
        ensures
            final(self)@ == feed_state(old(self)@, chunk@),
            !feed_fails(old(self)@, chunk@) ==> r == Ok::<bool, ClientError>(
                final(self)@.received >= final(self)@.expected,
            ),
            feed_fails(old(self)@, chunk@) ==> r == Err::<bool, ClientError>(
                ClientError::MalformedResponse {
                    received: final(self)@.received as u32,
                    expected: final(self)@.expected as u32,
                },
            ),
    {
        proof {
            use_type_invariant(&*self);
        }
        let mut buf: Vec<u8> = Vec::new();
        append_range(&mut buf, self.pending.as_slice(), 0, self.pending.len());
        append_range(&mut buf, chunk, 0, chunk.len());
        assert(self.pending@.subrange(0, self.pending@.len() as int) =~= self.pending@);
        assert(chunk@.subrange(0, chunk@.len() as int) =~= chunk@);
        let ghost all = buf@;
        assert(all =~= old(self)@.pending + chunk@);
        let ghost max = (self.expected - self.received) as nat;
        let mut pos: usize = 0;
        let mut count: u32 = self.received;
        let mut stalled = false;
        let len = buf.len();
        assert(all.skip(0) =~= all);
        while count < self.expected && !stalled
            invariant
                len == all.len(),
                all == old(self)@.pending + chunk@,
                stalled ==> scan_frames(all.skip(pos as int), (self.expected - count) as nat) == (
                Scan { count: 0, used: 0, malformed: false }),
                buf@ == all,
                *self == *old(self),
                self.expected == old(self).expected,
                max == self.expected - self.received,
                self.received <= count <= self.expected,
                pos <= all.len(),
                ({
                    let r = scan_frames(all.skip(pos as int), (self.expected - count) as nat);
                    scan_frames(all, max) == Scan {
                        count: ((count - self.received) + r.count) as nat,
                        used: (pos + r.used) as nat,
                        malformed: r.malformed,
                    }
                }),
            decreases self.expected - count + (if stalled { 0int } else { 1int }),
        {
            match frame_at(buf.as_slice(), pos) {
                Ok(n) => {
                    assert(pos + n <= len);
                    assert(all.skip(pos as int).skip(n as int) =~= all.skip(pos + n));
                    pos = pos + n;
                    count = count + 1;
                },
                Err(CodecError::InvalidLength) => {
                    assert(scan_frames(all.skip(pos as int), (self.expected - count) as nat).malformed);
                    self.pending = buf.split_off(pos);
                    assert(self.pending@ =~= all.skip(pos as int));
                    self.received = count;
                    return Err(
                        ClientError::MalformedResponse { received: count, expected: self.expected },
                    );
                },
                Err(_) => {
                    stalled = true;
                },
            }
        }
        self.pending = buf.split_off(pos);
        assert(self.pending@ =~= all.skip(pos as int));
        self.received = count;
        Ok(count >= self.expected)
    }

    /// Called when the server has closed the connection: fails unless every
    /// response asked for has been counted.
    pub fn on_eof(&self) -> (r: Result<(), ClientError>)
        ensures
            self@.received >= self@.expected ==> r == Ok::<(), ClientError>(()),
            self@.received < self@.expected ==> r == Err::<(), ClientError>(
                ClientError::ConnectionClosedEarly {
                    received: self@.received as u32,
                    expected: self@.expected as u32,
                },
            ),
    {
        if self.received >= self.expected {
            Ok(())
        } else {
            Err(ClientError::ConnectionClosedEarly { received: self.received, expected: self.expected })
        }
    }
}


/// Taking bytes never counts more responses than were asked for.
pub proof fn lemma_feed_valid(st: StreamState, chunk: Seq<u8>)
    requires
        st.received <= st.expected,
    ensures
        feed_state(st, chunk).received <= feed_state(st, chunk).expected,
        feed_state(st, chunk).expected == st.expected,
{
    lemma_scan_bounds(st.pending + chunk, (st.expected - st.received) as nat);
}

/// How the bytes are split across two reads does not matter: taking `x` and
/// then `y` leads to the same state as taking `x + y` at once, and meets a
/// negative length prefix exactly when that does.
pub proof fn lemma_feed_chunking(st: StreamState, x: Seq<u8>, y: Seq<u8>)
    requires
        st.received <= st.expected,
    ensures
        feed_state(feed_state(st, x), y) == feed_state(st, x + y),
        feed_fails(st, x + y) == (feed_fails(st, x) || feed_fails(feed_state(st, x), y)),
{
    let a = st.pending + x;
    let max = (st.expected - st.received) as nat;
    assert(st.pending + (x + y) =~= a + y);
    lemma_scan_concat(a, y, max);
    lemma_scan_bounds(a, max);
    let s = scan_frames(a, max);
    let rest = a.skip(s.used as int) + y;
    if s.malformed {
        lemma_scan_malformed_at(a, max);
        lemma_frame_len_extends(a.skip(s.used as int), y);
        assert(scan_frames(rest, (max - s.count) as nat) == Scan {
            count: 0,
            used: 0,
            malformed: true,
        });
        assert(rest.skip(0) =~= (a + y).skip(s.used as int));
    } else {
        let t = scan_frames(rest, (max - s.count) as nat);
        lemma_scan_bounds(rest, (max - s.count) as nat);
        assert((a + y).skip((s.used + t.used) as int) =~= rest.skip(t.used as int));
    }
}

/// Over any number of reads, the state depends only on the bytes received so
/// far: it is the state that all of them taken at once would give, and a
/// negative length prefix is met exactly when it would be then.
pub proof fn lemma_feed_reads(expected: nat, chunks: Seq<Seq<u8>>)
    ensures
        feed_all(initial_state(expected), chunks) == feed_state(
            initial_state(expected),
            concat_chunks(chunks),
        ),
        feed_all_fails(initial_state(expected), chunks) == feed_fails(
            initial_state(expected),
            concat_chunks(chunks),
        ),
    decreases chunks.len(),
{
    let st0 = initial_state(expected);
    if chunks.len() == 0 {
        assert(st0.pending + Seq::<u8>::empty() =~= Seq::<u8>::empty());
        assert(Seq::<u8>::empty().skip(0) =~= Seq::<u8>::empty());
    } else {
        let init = chunks.drop_last();
        lemma_feed_reads(expected, init);
        lemma_feed_chunking(st0, concat_chunks(init), chunks.last());
    }
}

/// A stream waiting for `n` responses that takes the encodings of `n`
/// responses counts all of them, keeps no byte and does not fail.
pub proof fn lemma_feed_batch(payloads: Seq<Seq<u8>>)
    requires
        payloads_fit(payloads),
    ensures
        feed_state(initial_state(payloads.len()), batch_bytes(payloads)) == (StreamState {
            pending: Seq::empty(),
            received: payloads.len(),
            expected: payloads.len(),
        }),
        !feed_fails(initial_state(payloads.len()), batch_bytes(payloads)),
{
    let b = batch_bytes(payloads);
    assert(Seq::<u8>::empty() + b =~= b);
    lemma_scan_batch(payloads, payloads.len());
    assert(b.skip(b.len() as int) =~= Seq::<u8>::empty());
}

/// However a batch of `n` responses is split into reads, a stream waiting
/// for `n` responses counts all `n` of them, keeps no byte and does not fail.
pub proof fn lemma_feed_batch_reads(payloads: Seq<Seq<u8>>, chunks: Seq<Seq<u8>>)
    requires
        payloads_fit(payloads),
        concat_chunks(chunks) == batch_bytes(payloads),
    ensures
        feed_all(initial_state(payloads.len()), chunks) == (StreamState {
            pending: Seq::empty(),
            received: payloads.len(),
            expected: payloads.len(),
        }),
        !feed_all_fails(initial_state(payloads.len()), chunks),
{
    lemma_feed_batch(payloads);
    lemma_feed_reads(payloads.len(), chunks);
}

} // verus!
