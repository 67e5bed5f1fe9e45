//! Byte layout of requests and responses.
//!
//! A request is a 4-byte little-endian count. A response is a length-prefixed
//! string: a 4-byte little-endian signed length followed by that many bytes.
use vstd::prelude::*;
use vstd::utf8::{
    decode_utf8, encode_utf8, encode_utf8_decode_utf8, encode_utf8_valid_utf8, valid_utf8,
};
use vstd::string::StringSliceAdditionalSpecFns;

verus! {

/// The largest payload length that the signed 32-bit prefix can hold.
pub const MAX_PAYLOAD: u32 = 0x7fff_ffff;

/// Little-endian value of the first four bytes of `b`.
pub open spec fn le_u32(b: Seq<u8>) -> nat
    recommends
        b.len() >= 4,
{
    (b[0] as nat) + 256 * (b[1] as nat) + 65536 * (b[2] as nat) + 16777216 * (b[3] as nat)
}

/// The first four bytes of `b` read as a little-endian two's complement integer.
pub open spec fn le_i32(b: Seq<u8>) -> int
    recommends
        b.len() >= 4,
{
    if le_u32(b) < 0x8000_0000 {
        le_u32(b) as int
    } else {
        le_u32(b) - 0x1_0000_0000
    }
}

/// The four little-endian bytes of `n`.
pub open spec fn le_bytes(n: nat) -> Seq<u8> {
    seq![
        (n % 256) as u8,
        ((n / 256) % 256) as u8,
        ((n / 65536) % 256) as u8,
        ((n / 16777216) % 256) as u8,
    ]
}

/// Reading back the four bytes of a 32-bit value gives that value.
pub proof fn lemma_le_round_trip(n: nat)
    requires
        n < 0x1_0000_0000,
    ensures
        le_bytes(n).len() == 4,
        le_u32(le_bytes(n)) == n,
{
    assert(le_u32(le_bytes(n)) == n) by (nonlinear_arith)
        requires
            n < 0x1_0000_0000,
    ;
}

/// Writes `n` as four little-endian bytes at the end of `out`.
fn push_u32_le(out: &mut Vec<u8>, n: u32)
    ensures
        final(out)@ == old(out)@ + le_bytes(n as nat),
{
    out.push((n % 256) as u8);
    out.push(((n / 256) % 256) as u8);
    out.push(((n / 65536) % 256) as u8);
    out.push(((n / 16777216) % 256) as u8);
    assert(out@ =~= old(out)@ + le_bytes(n as nat));
}

/// Reads a little-endian `u32` at `pos`.
fn read_u32_le(b: &[u8], pos: usize) -> (r: u32)
    requires
        pos + 4 <= b@.len(),
    ensures
        r as nat == le_u32(b@.skip(pos as int)),
{
    (b[pos] as u32) + (b[pos + 1] as u32) * 256 + (b[pos + 2] as u32) * 65536 + (b[pos + 3] as u32)
        * 16777216
}

/// A request for `times` responses.
#[derive(Debug, PartialEq, Eq, Structural, Clone, Copy)]
pub struct SocketRequest {
    pub times: u32,
}

/// Why a message could not be encoded or decoded.
#[derive(Debug, PartialEq, Eq, Structural, Clone, Copy)]
pub enum CodecError {
    /// Fewer bytes are at hand than the message needs; more may still come.
    TruncatedInput,
    /// A payload is longer than the signed 32-bit length prefix can state.
    PayloadTooLarge,
    /// A length prefix is negative: no amount of further input makes it valid.
    InvalidLength,
}

/// Length, prefix included, of the length-prefixed string at the start of
/// `b`: `TruncatedInput` while the prefix or the payload has not fully
/// arrived, `InvalidLength` for a negative prefix.
pub open spec fn frame_len(b: Seq<u8>) -> Result<nat, CodecError> {
    if b.len() < 4 {
        Err(CodecError::TruncatedInput)
    } else if le_i32(b) < 0 {
        Err(CodecError::InvalidLength)
    } else if b.len() < 4 + le_i32(b) {
        Err(CodecError::TruncatedInput)
    } else {
        Ok((4 + le_i32(b)) as nat)
    }
}

/// The encoding of a length-prefixed string with the given payload.
pub open spec fn string_frame(payload: Seq<u8>) -> Seq<u8> {
    le_bytes(payload.len()) + payload
}

/// Encoding of a request.
pub open spec fn request_bytes(req: SocketRequest) -> Seq<u8> {
    le_bytes(req.times as nat)
}

/// The request at the start of `b`, if four bytes are there.
pub open spec fn request_of(b: Seq<u8>) -> Option<SocketRequest> {
    if b.len() < 4 {
        None
    } else {
        Some(SocketRequest { times: le_u32(b) as u32 })
    }
}

/// Decoding the encoding of a request gives that request.
pub proof fn lemma_request_round_trip(req: SocketRequest)
    ensures
        request_of(request_bytes(req)) == Some(req),
{
    lemma_le_round_trip(req.times as nat);
}

/// A string's encoding, followed by any bytes, starts with a whole record
/// that holds that string.
pub proof fn lemma_frame_of_string_frame(payload: Seq<u8>, rest: Seq<u8>)
    requires
        payload.len() <= MAX_PAYLOAD,
    ensures
        frame_len(string_frame(payload) + rest) == Ok::<nat, CodecError>(4 + payload.len()),
        (string_frame(payload) + rest).subrange(4, 4 + payload.len() as int) == payload,
        (string_frame(payload) + rest).skip(4 + payload.len() as int) == rest,
{
    let b = string_frame(payload) + rest;
    lemma_le_round_trip(payload.len());
    assert(le_u32(b) == le_u32(le_bytes(payload.len())));
    assert(b.subrange(4, 4 + payload.len() as int) =~= payload);
    assert(b.skip(4 + payload.len() as int) =~= rest);
}

/// Encodes a request as four little-endian bytes.
pub fn encode_request(req: &SocketRequest) -> (r: Vec<u8>)
    ensures
        r@ == request_bytes(*req),
{
    let mut out: Vec<u8> = Vec::new();
    push_u32_le(&mut out, req.times);
    assert(out@ =~= request_bytes(*req));
    out
}

/// Decodes the request at the start of `bytes`, with the number of bytes it took.
pub fn decode_request(bytes: &[u8]) -> (r: Result<(SocketRequest, usize), CodecError>)
    ensures
        match request_of(bytes@) {
            Some(req) => r == Ok::<(SocketRequest, usize), CodecError>((req, 4usize)),
            None => r == Err::<(SocketRequest, usize), CodecError>(CodecError::TruncatedInput),
        },
{
    if bytes.len() < 4 {
        Err(CodecError::TruncatedInput)
    } else {
        let times = read_u32_le(bytes, 0);
        assert(bytes@.skip(0) =~= bytes@);
        Ok((SocketRequest { times }, 4))
    }
}


/// Length, prefix included, of the length-prefixed string that starts at
/// `pos` in `b`.
pub(crate) fn frame_at(b: &[u8], pos: usize) -> (r: Result<usize, CodecError>)
    requires
        pos <= b@.len(),
    ensures
        match r {
            Ok(n) => frame_len(b@.skip(pos as int)) == Ok::<nat, CodecError>(n as nat) && 4 <= n
                <= b@.len() - pos,
            Err(e) => frame_len(b@.skip(pos as int)) == Err::<nat, CodecError>(e),
        },
{
    if b.len() - pos < 4 {
        return Err(CodecError::TruncatedInput);
    }
    let n = read_u32_le(b, pos);
    if n > MAX_PAYLOAD {
        Err(CodecError::InvalidLength)
    } else if (b.len() - pos - 4) < n as usize {
        Err(CodecError::TruncatedInput)
    } else {
        Ok(n as usize + 4)
    }
}

/// Copies `src[from..to]` to the end of `out`.
pub(crate) fn append_range(out: &mut Vec<u8>, src: &[u8], from: usize, to: usize)
    requires
        from <= to <= src@.len(),
    ensures
        final(out)@ == old(out)@ + src@.subrange(from as int, to as int),
{
    let mut i = from;
    while i < to
        invariant
            from <= i <= to <= src@.len(),
            out@ == old(out)@ + src@.subrange(from as int, i as int),
        decreases to - i,
    {
        out.push(src[i]);
        assert(src@.subrange(from as int, i + 1) =~= src@.subrange(from as int, i as int).push(
            src@[i as int],
        ));
        i = i + 1;
    }
}

/// A string as it travels: its bytes, with their count as a signed 32-bit
/// prefix. The bytes are meant to be UTF-8 but need not be.
#[derive(Debug)]
pub struct AdvString {
    str_len: i32,
    str_bytes: Vec<u8>,
}

impl View for AdvString {
    type V = Seq<u8>;

    closed spec fn view(&self) -> Seq<u8> {
        self.str_bytes@
    }
}

impl AdvString {
    #[verifier::type_invariant]
    spec fn inv(&self) -> bool {
        0 <= self.str_len && self.str_len as int == self.str_bytes@.len()
    }

    /// Wraps `bytes`, whose count fits the length prefix.
    pub fn new(bytes: Vec<u8>) -> (r: AdvString)
        requires
            bytes@.len() <= MAX_PAYLOAD,
        ensures
            r@ == bytes@,
    {
        AdvString { str_len: bytes.len() as i32, str_bytes: bytes }
    }

    /// Wraps `bytes`, or fails with `PayloadTooLarge` when the prefix cannot
    /// state their count.
    pub fn from_bytes(bytes: Vec<u8>) -> (r: Result<AdvString, CodecError>)
        ensures
            bytes@.len() <= MAX_PAYLOAD ==> (r matches Ok(a) && a@ == bytes@),
            bytes@.len() > MAX_PAYLOAD ==> r == Err::<AdvString, CodecError>(
                CodecError::PayloadTooLarge,
            ),
    {
        if bytes.len() > MAX_PAYLOAD as usize {
            Err(CodecError::PayloadTooLarge)
        } else {
            Ok(AdvString::new(bytes))
        }
    }

    /// Number of payload bytes.
    pub fn len(&self) -> (r: usize)
        ensures
            r == self@.len(),
            r <= MAX_PAYLOAD,
    {
        proof {
            use_type_invariant(self);
        }
        self.str_bytes.len()
    }

    /// The payload bytes.
    pub fn as_bytes(&self) -> (r: &[u8])
        ensures
            r@ == self@,
    {
        self.str_bytes.as_slice()
    }

    /// The payload as text; invalid UTF-8 becomes replacement characters.
    pub fn to_string(&self) -> (r: String)
        ensures
            r@ == lossy_text(self@),
    {
        lossy_string(self.str_bytes.as_slice())
    }

    /// Appends the encoding of this string to `out`.
    pub fn encode_into(&self, out: &mut Vec<u8>)
        ensures
            final(out)@ == old(out)@ + string_frame(self@),
    {
        proof {
            use_type_invariant(self);
        }
        push_u32_le(out, self.str_len as u32);
        append_range(out, self.str_bytes.as_slice(), 0, self.str_bytes.len());
        assert(self.str_bytes@.subrange(0, self.str_bytes@.len() as int) =~= self.str_bytes@);
        assert(out@ =~= old(out)@ + string_frame(self@));
    }

    /// Decodes the string at the start of `bytes`, with the number of bytes it
    /// took.
    pub fn decode(bytes: &[u8]) -> (r: Result<(AdvString, usize), CodecError>)
        ensures
            match r {
                Ok((a, n)) => frame_len(bytes@) == Ok::<nat, CodecError>(n as nat) && a@
                    == bytes@.subrange(4, n as int),
                Err(e) => frame_len(bytes@) == Err::<nat, CodecError>(e),
            },
    {
        assert(bytes@.skip(0) =~= bytes@);
        match frame_at(bytes, 0) {
            Err(e) => Err(e),
            Ok(n) => {
                let mut payload: Vec<u8> = Vec::new();
                append_range(&mut payload, bytes, 4, n);
                assert(payload@ =~= bytes@.subrange(4, n as int));
                let len = (n - 4) as i32;
                Ok((AdvString { str_len: len, str_bytes: payload }, n))
            },
        }
    }
}

impl From<AdvString> for String {
    /// The payload as text, as `AdvString::to_string` gives it.
    fn from(src: AdvString) -> (r: String) {
        src.to_string()
    }
}

/// Two strings with the same characters are not known to be equal values,
/// so `from` is not held to `from_spec`; `AdvString::to_string` states the
/// result exactly.
impl vstd::std_specs::convert::FromSpecImpl<AdvString> for String {
    open spec fn obeys_from_spec() -> bool {
        false
    }

    open spec fn from_spec(src: AdvString) -> String {
        choose|s: String| s@ == lossy_text(src@)
    }
}

/// What `String::from_utf8_lossy` makes of bytes that are not valid UTF-8.
pub uninterp spec fn lossy_utf8(b: Seq<u8>) -> Seq<char>;

/// Text read from bytes: their UTF-8 decoding where they are valid UTF-8.
pub open spec fn lossy_text(b: Seq<u8>) -> Seq<char> {
    if valid_utf8(b) {
        decode_utf8(b)
    } else {
        lossy_utf8(b)
    }
}

/// Relies on `String::from_utf8_lossy`: valid UTF-8 is decoded as it stands,
/// and the result depends on the bytes alone.
#[verifier::external_body]
fn lossy_string(b: &[u8]) -> (r: String)
    ensures
        valid_utf8(b@) ==> r@ == decode_utf8(b@),
        !valid_utf8(b@) ==> r@ == lossy_utf8(b@),
{
    String::from_utf8_lossy(b).into_owned()
}


/// One generated response: a name.
#[derive(Debug)]
pub struct SocketResponse {
    pub name: AdvString,
}

impl View for SocketResponse {
    type V = Seq<u8>;

    open spec fn view(&self) -> Seq<u8> {
        self.name@
    }
}

/// Encoding of a string, or why it has none.
pub open spec fn string_encoding(s: Seq<char>) -> Result<Seq<u8>, CodecError> {
    if encode_utf8(s).len() > MAX_PAYLOAD {
        Err(CodecError::PayloadTooLarge)
    } else {
        Ok(string_frame(encode_utf8(s)))
    }
}

/// The string at the start of `b`, with the number of bytes it takes, or why
/// there is none.
pub open spec fn string_decoding(b: Seq<u8>) -> Result<(Seq<char>, nat), CodecError> {
    match frame_len(b) {
        Ok(n) => Ok((lossy_text(b.subrange(4, n as int)), n)),
        Err(e) => Err(e),
    }
}

/// Encodes `s` as its UTF-8 byte count, four bytes little-endian, followed by
/// its UTF-8 bytes.
pub fn encode_string(s: &str) -> (r: Result<Vec<u8>, CodecError>)
    ensures
        match r {
            Ok(v) => string_encoding(s@) == Ok::<Seq<u8>, CodecError>(v@),
            Err(e) => string_encoding(s@) == Err::<Seq<u8>, CodecError>(e),
        },
{
    let bytes = s.as_bytes();
    if bytes.len() > MAX_PAYLOAD as usize {
        return Err(CodecError::PayloadTooLarge);
    }
    let mut out: Vec<u8> = Vec::new();
    push_u32_le(&mut out, bytes.len() as u32);
    append_range(&mut out, bytes, 0, bytes.len());
    assert(bytes@.subrange(0, bytes@.len() as int) =~= bytes@);
    assert(out@ =~= string_frame(encode_utf8(s@)));
    Ok(out)
}

/// Decodes the string at the start of `bytes`, with the number of bytes it
/// took. Invalid UTF-8 is read lossily.
pub fn decode_string(bytes: &[u8]) -> (r: Result<(String, usize), CodecError>)
    ensures
        match r {
            Ok((s, n)) => string_decoding(bytes@) == Ok::<(Seq<char>, nat), CodecError>(
                (s@, n as nat),
            ),
            Err(e) => string_decoding(bytes@) == Err::<(Seq<char>, nat), CodecError>(e),
        },
{
    match AdvString::decode(bytes) {
        Ok((a, n)) => Ok((a.to_string(), n)),
        Err(e) => Err(e),
    }
}

/// Encodes a response: its name as a length-prefixed string.
pub fn encode_response(resp: &SocketResponse) -> (r: Vec<u8>)
    ensures
        r@ == string_frame(resp@),
{
    let mut out: Vec<u8> = Vec::new();
    resp.name.encode_into(&mut out);
    assert(out@ =~= string_frame(resp@));
    out
}

/// Decodes the response at the start of `bytes`, with the number of bytes it
/// took.
pub fn decode_response(bytes: &[u8]) -> (r: Result<(SocketResponse, usize), CodecError>)
    ensures
        match r {
            Ok((resp, n)) => frame_len(bytes@) == Ok::<nat, CodecError>(n as nat) && resp@
                == bytes@.subrange(4, n as int),
            Err(e) => frame_len(bytes@) == Err::<nat, CodecError>(e),
        },
{
    match AdvString::decode(bytes) {
        Ok((name, n)) => Ok((SocketResponse { name }, n)),
        Err(e) => Err(e),
    }
}

/// Decoding the encoding of a string gives back that string and the length
/// of the encoding.
pub proof fn lemma_string_round_trip(s: Seq<char>)
    requires
        encode_utf8(s).len() <= MAX_PAYLOAD,
    ensures
        string_encoding(s) matches Ok(b) && string_decoding(b) == Ok::<(Seq<char>, nat), CodecError>(
            (s, b.len()),
        ),
{
    let payload = encode_utf8(s);
    let b = string_frame(payload);
    assert(b + Seq::<u8>::empty() =~= b);
    lemma_frame_of_string_frame(payload, Seq::empty());
    assert(string_encoding(s) == Ok::<Seq<u8>, CodecError>(b));
    assert(frame_len(b) == Ok::<nat, CodecError>(b.len()));
    assert(b.subrange(4, b.len() as int) == payload);
    encode_utf8_valid_utf8(s);
    encode_utf8_decode_utf8(s);
    assert(lossy_text(payload) == s);
}

} // verus!
