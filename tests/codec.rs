use sockbench::wire::{
    decode_request, decode_response, decode_string, encode_request, encode_response,
    encode_string, AdvString, CodecError, SocketRequest, SocketResponse,
};

#[test]
fn request_is_four_little_endian_bytes() {
    let bytes = encode_request(&SocketRequest { times: 0x0102_0304 });
    assert_eq!(bytes, vec![4, 3, 2, 1]);
    let (req, used) = decode_request(&bytes).unwrap();
    assert_eq!(req, SocketRequest { times: 0x0102_0304 });
    assert_eq!(used, 4);
}

#[test]
fn request_decode_ignores_trailing_bytes() {
    let (req, used) = decode_request(&[3, 0, 0, 0, 9, 9]).unwrap();
    assert_eq!(req.times, 3);
    assert_eq!(used, 4);
}

#[test]
fn request_decode_needs_four_bytes() {
    assert_eq!(decode_request(&[1, 2, 3]).unwrap_err(), CodecError::TruncatedInput);
    assert_eq!(decode_request(&[]).unwrap_err(), CodecError::TruncatedInput);
}

#[test]
fn string_encoding_layout() {
    let bytes = encode_string("abc").unwrap();
    assert_eq!(bytes, vec![3, 0, 0, 0, b'a', b'b', b'c']);
}

#[test]
fn string_round_trip() {
    for s in ["", "hello", "h\u{e9}llo \u{2713}", "0123456789abcdefghijABCDEFGHIJ012345"] {
        let bytes = encode_string(s).unwrap();
        let (back, used) = decode_string(&bytes).unwrap();
        assert_eq!(back, s);
        assert_eq!(used, bytes.len());
    }
}

#[test]
fn string_decode_stops_at_declared_length() {
    let (s, used) = decode_string(&[2, 0, 0, 0, b'o', b'k', b'!', b'?']).unwrap();
    assert_eq!(s, "ok");
    assert_eq!(used, 6);
}

#[test]
fn string_decode_truncated_prefix() {
    assert_eq!(decode_string(&[5, 0]).unwrap_err(), CodecError::TruncatedInput);
}

#[test]
fn string_decode_length_beyond_buffer() {
    assert_eq!(decode_string(&[5, 0, 0, 0, b'a', b'b']).unwrap_err(), CodecError::TruncatedInput);
    assert_eq!(
        decode_string(&[0xff, 0xff, 0xff, 0x7f, b'a']).unwrap_err(),
        CodecError::TruncatedInput
    );
}

#[test]
fn string_decode_negative_length() {
    assert_eq!(
        decode_string(&[0xff, 0xff, 0xff, 0xff, b'a', b'b']).unwrap_err(),
        CodecError::InvalidLength
    );
    assert_eq!(
        decode_string(&[0, 0, 0, 0x80]).unwrap_err(),
        CodecError::InvalidLength
    );
}

#[test]
fn string_decode_is_lossy() {
    let (s, used) = decode_string(&[3, 0, 0, 0, b'a', 0xff, b'b']).unwrap();
    assert_eq!(s, "a\u{fffd}b");
    assert_eq!(used, 7);
}

#[test]
fn adv_string_to_string() {
    let a = AdvString::from_bytes(b"name".to_vec()).unwrap();
    assert_eq!(a.to_string(), "name");
    assert_eq!(a.len(), 4);
    assert_eq!(a.as_bytes(), b"name");
}

#[test]
fn adv_string_into_string() {
    let a = AdvString::from_bytes(vec![b'o', 0xc3, b'k']).unwrap();
    let s: String = a.into();
    assert_eq!(s, "o\u{fffd}k");
    let b = AdvString::from_bytes(b"plain".to_vec()).unwrap();
    assert_eq!(String::from(b), "plain");
}

#[test]
fn response_round_trip() {
    let resp = SocketResponse { name: AdvString::new(b"xyz".to_vec()) };
    let bytes = encode_response(&resp);
    assert_eq!(bytes, vec![3, 0, 0, 0, b'x', b'y', b'z']);
    let (back, used) = decode_response(&bytes).unwrap();
    assert_eq!(back.name.as_bytes(), b"xyz");
    assert_eq!(used, 7);
}

#[test]
fn response_decode_negative_length() {
    assert_eq!(
        decode_response(&[0xfe, 0xff, 0xff, 0xff]).err(),
        Some(CodecError::InvalidLength)
    );
}
