//! The server's side of a benchmark round: one request per connection,
//! answered with a batch of randomly named responses written at once.
use rand::Rng;
use vstd::prelude::*;

use crate::client::{
    concat_chunks, feed_all, feed_all_fails, initial_state, lemma_feed_batch_reads, StreamState,
};
use crate::stream::{batch_bytes, lemma_batch_push, payloads_fit};
use crate::wire::{append_range, decode_request, request_of, AdvString, SocketResponse};

verus! {

/// Length of a generated response name.
pub const UUID_LEN: usize = 36;

/// An ASCII letter or digit.
pub open spec fn is_alphanumeric(c: u8) -> bool {
    (0x41 <= c <= 0x5a) || (0x61 <= c <= 0x7a) || (0x30 <= c <= 0x39)
}

/// A generated name: 36 ASCII letters and digits.
pub open spec fn is_uuid(name: Seq<u8>) -> bool {
    name.len() == UUID_LEN && forall|j: int| 0 <= j < name.len() ==> is_alphanumeric(
        #[trigger] name[j],
    )
}

/// `b` is the encoding of `count` responses with generated names.
pub open spec fn is_response_batch(b: Seq<u8>, count: nat) -> bool {
    exists|names: Seq<Seq<u8>>|
        {
            &&& #[trigger] names.len() == count
            &&& forall|i: int| 0 <= i < names.len() ==> is_uuid(#[trigger] names[i])
            &&& b == batch_bytes(names)
        }
}

/// Relies on `rand::thread_rng` and `Rng::sample` with the `Alphanumeric`
/// distribution, which draws one byte of `A-Z`, `a-z`, `0-9`. It panics only
/// where the system's random source cannot be read, which no argument decides.
#[verifier::external_body]
fn random_alphanumeric() -> (r: u8)
    ensures
        is_alphanumeric(r),
{
    rand::thread_rng().sample(rand::distributions::Alphanumeric)
}

/// A fresh random name of 36 ASCII letters and digits.
pub fn make_uuid() -> (r: Vec<u8>)
    ensures
        is_uuid(r@),
{
    let mut out: Vec<u8> = Vec::new();
    let mut i: usize = 0;
    while i < UUID_LEN
        invariant
            i <= UUID_LEN,
            out@.len() == i,
            forall|j: int| 0 <= j < out@.len() ==> is_alphanumeric(#[trigger] out@[j]),
        decreases UUID_LEN - i,
    {
        let c = random_alphanumeric();
        out.push(c);
        i = i + 1;
    }
    out
}

/// A response with a fresh random name.
pub fn make_random_item() -> (r: SocketResponse)
    ensures
        is_uuid(r@),
{
    SocketResponse { name: AdvString::new(make_uuid()) }
}


/// The names of `responses`, in order.
pub open spec fn names_of(responses: Seq<SocketResponse>) -> Seq<Seq<u8>> {
    responses.map_values(|r: SocketResponse| r@)
}

/// Encodes `responses` one after the other into one buffer.
pub fn encode_responses(responses: &Vec<SocketResponse>) -> (r: Vec<u8>)
    ensures
        r@ == batch_bytes(names_of(responses@)),
{
    let mut out: Vec<u8> = Vec::new();
    let mut i: usize = 0;
    assert(names_of(responses@).take(0) =~= Seq::<Seq<u8>>::empty());
    while i < responses.len()
        invariant
            i <= responses@.len(),
            out@ == batch_bytes(names_of(responses@).take(i as int)),
        decreases responses@.len() - i,
    {
        responses[i].name.encode_into(&mut out);
        proof {
            let names = names_of(responses@);
            lemma_batch_push(names.take(i as int), names[i as int]);
            assert(names.take(i + 1) =~= names.take(i as int).push(names[i as int]));
        }
        i = i + 1;
    }
    assert(names_of(responses@).take(responses@.len() as int) =~= names_of(responses@));
    out
}

/// `count` responses with fresh random names.
pub fn generate_responses(count: u32) -> (r: Vec<SocketResponse>)
    ensures
        r@.len() == count,
        forall|i: int| 0 <= i < r@.len() ==> is_uuid(#[trigger] r@[i]@),
{
    let mut out: Vec<SocketResponse> = Vec::new();
    let mut i: u32 = 0;
    while i < count
        invariant
            i <= count,
            out@.len() == i,
            forall|j: int| 0 <= j < out@.len() ==> is_uuid(#[trigger] out@[j]@),
        decreases count - i,
    {
        out.push(make_random_item());
        i = i + 1;
    }
    out
}

/// The reply to a request for `count` responses: the encodings of `count`
/// responses with fresh random names, in one buffer.
pub fn make_response_batch(count: u32) -> (r: Vec<u8>)
    ensures
        is_response_batch(r@, count as nat),
{
    let responses = generate_responses(count);
    let out = encode_responses(&responses);
    assert(names_of(responses@).len() == count as nat);
    assert(forall|i: int|
        0 <= i < names_of(responses@).len() ==> is_uuid(#[trigger] names_of(responses@)[i])) by {
        assert forall|i: int| 0 <= i < names_of(responses@).len() implies is_uuid(
            #[trigger] names_of(responses@)[i],
        ) by {
            assert(names_of(responses@)[i] == responses@[i]@);
        }
    }
    out
}

/// Generated names always fit the length prefix.
pub proof fn lemma_uuids_fit(names: Seq<Seq<u8>>)
    requires
        forall|i: int| 0 <= i < names.len() ==> is_uuid(#[trigger] names[i]),
    ensures
        payloads_fit(names),
{
}


/// Whatever names a reply to a request for `count` responses holds, and
/// however it is split into reads, a client waiting for `count` responses
/// counts exactly `count`, keeps no byte and does not fail.
pub proof fn lemma_client_counts_reply(b: Seq<u8>, count: nat, chunks: Seq<Seq<u8>>)
    requires
        is_response_batch(b, count),
        concat_chunks(chunks) == b,
    ensures
        feed_all(initial_state(count), chunks) == (StreamState {
            pending: Seq::empty(),
            received: count,
            expected: count,
        }),
        !feed_all_fails(initial_state(count), chunks),
{
    let names = choose|names: Seq<Seq<u8>>|
        {
            &&& #[trigger] names.len() == count
            &&& forall|i: int| 0 <= i < names.len() ==> is_uuid(#[trigger] names[i])
            &&& b == batch_bytes(names)
        };
    lemma_uuids_fit(names);
    lemma_feed_batch_reads(names, chunks);
}

/// Where a connection stands.
#[derive(Debug, PartialEq, Eq, Structural, Clone, Copy)]
pub enum Phase {
    /// Waiting for the four bytes of the request.
    AwaitingRequest,
    /// The reply has been handed out; further bytes are ignored.
    Served,
    /// The peer closed the connection.
    Closed,
}

/// What the connection's owner does next.
#[derive(Debug)]
pub enum ServerAction {
    /// Wait for more bytes.
    Wait,
    /// Write these bytes to the peer in one write.
    Reply(Vec<u8>),
    /// Drop the connection.
    Close,
}

/// A connection's phase and the request bytes received but not yet read.
pub struct ConnectionState {
    pub phase: Phase,
    pub pending: Seq<u8>,
}

/// The server's side of one connection.
pub struct ServerConnection {
    phase: Phase,
    pending: Vec<u8>,
}

impl View for ServerConnection {
    type V = ConnectionState;

    closed spec fn view(&self) -> ConnectionState {
        ConnectionState { phase: self.phase, pending: self.pending@ }
    }
}

impl ServerConnection {
    /// A connection that has just been accepted.
    pub fn new() -> (r: ServerConnection)
        ensures
            r@ == (ConnectionState { phase: Phase::AwaitingRequest, pending: Seq::empty() }),
    {
        ServerConnection { phase: Phase::AwaitingRequest, pending: Vec::new() }
    }

    /// Where the connection stands.
    pub fn phase(&self) -> (r: Phase)
        ensures
            r == self@.phase,
    {
        self.phase
    }

    /// Takes the bytes of one read. While the request is awaited they are
    /// kept until its four bytes are there; then the reply to it is made and
    /// the connection is served.
    pub fn on_data(&mut self, chunk: &[u8]) -> (r: ServerAction)
        ensures
            old(self)@.phase != Phase::AwaitingRequest ==> r is Wait && final(self)@ == old(self)@,
            old(self)@.phase == Phase::AwaitingRequest ==> ({
                let all = old(self)@.pending + chunk@;
                match request_of(all) {
                    None => r is Wait && final(self)@ == (ConnectionState {
                        phase: Phase::AwaitingRequest,
                        pending: all,
                    }),
                    Some(req) => (r matches ServerAction::Reply(b) && is_response_batch(
                        b@,
                        req.times as nat,
                    )) && final(self)@ == (ConnectionState {
                        phase: Phase::Served,
                        pending: all.skip(4),
                    }),
                }
            }),
    {
        if self.phase != Phase::AwaitingRequest {
            return ServerAction::Wait;
        }
        let mut buf: Vec<u8> = Vec::new();
        append_range(&mut buf, self.pending.as_slice(), 0, self.pending.len());
        append_range(&mut buf, chunk, 0, chunk.len());
        assert(self.pending@.subrange(0, self.pending@.len() as int) =~= self.pending@);
        assert(chunk@.subrange(0, chunk@.len() as int) =~= chunk@);
        match decode_request(buf.as_slice()) {
            Err(_) => {
                self.pending = buf;
                ServerAction::Wait
            },
            Ok((req, used)) => {
                let batch = make_response_batch(req.times);
                self.pending = buf.split_off(used);
                assert(self.pending@ =~= (old(self)@.pending + chunk@).skip(4));
                self.phase = Phase::Served;
                ServerAction::Reply(batch)
            },
        }
    }

    /// The peer closed the connection.
    pub fn on_eof(&mut self) -> (r: ServerAction)
        ensures
            r is Close,
            final(self)@ == (ConnectionState { phase: Phase::Closed, ..old(self)@ }),
    {
        self.phase = Phase::Closed;
        ServerAction::Close
    }
}

} // verus!
