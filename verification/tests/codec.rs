use bytes::BytesMut;
use line_echo::lines::{DecodeError, LineCodec};

#[test]
fn encoder_encodes_message() {
    let mut b = BytesMut::with_capacity(0);
    let mut codec = LineCodec::new();
    codec.encode("A packet".to_string(), &mut b);
    assert_eq!(b"A packet\n", &b[..]);
}

#[test]
fn encoder_handles_multiple_frames() {
    let mut b = BytesMut::with_capacity(0);
    let mut codec = LineCodec::new();
    codec.encode("A packet".to_string(), &mut b);
    codec.encode("Another packet".to_string(), &mut b);
    assert_eq!(b"A packet\nAnother packet\n", &b[..]);
}

#[test]
fn encoder_handles_empty_frame() {
    let mut b = BytesMut::with_capacity(0);
    let mut codec = LineCodec::new();
    codec.encode("".to_string(), &mut b);
    codec.encode("".to_string(), &mut b);
    assert_eq!(b"\n\n", &b[..]);
}

#[test]
fn decoder_extracts_message() {
    let mut b = BytesMut::with_capacity(64);
    b.extend_from_slice(b"The boy stood on the burning deck\nWhence all but he had fled.");

    let mut codec = LineCodec::new();
    let x = codec.decode(&mut b).unwrap().unwrap();
    assert_eq!("The boy stood on the burning deck", x);
    assert_eq!(b"Whence all but he had fled.", &b[..]);
}

#[test]
fn decoder_handles_zero_length_frame() {
    let mut b = BytesMut::with_capacity(16);
    b.extend_from_slice(b"\n");
    let mut codec = LineCodec::new();
    let x = codec.decode(&mut b).unwrap().unwrap();
    assert_eq!("", x);
    assert_eq!(b"", &b[..])
}

#[test]
fn decoder_handles_empty_buffer() {
    let mut b = BytesMut::with_capacity(0);
    let mut codec = LineCodec::new();
    let x = codec.decode(&mut b).unwrap();
    assert!(x.is_none());
}

#[test]
fn decoder_handles_incomplete_frames() {
    let mut b = BytesMut::with_capacity(64);
    b.extend_from_slice(b"The boy stood on the burning deck");

    let mut codec = LineCodec::new();
    let x = codec.decode(&mut b).unwrap();
    assert!(x.is_none());

    b.extend_from_slice(b"\nWhence all but he had fled.");
    let x = codec.decode(&mut b).unwrap().unwrap();
    assert_eq!("The boy stood on the burning deck", x);
    assert_eq!(b"Whence all but he had fled.", &b[..]);
}

#[test]
fn decoder_returns_error_on_invalid_utf8() {
    let tests = vec![
        &b"\xc3\x28"[..],         // invalid 2-octet sequence
        &b"\xa0\xa1"[..],         // invalid sequence header
        &b"\xe2\x28\xa1"[..],     // invalid 3-octet sequence (in 2nd octet)
        &b"\xe2\x82\x28"[..],     // invalid 3-octet sequence (in 3rd octet)
        &b"\xf0\x28\x8c\xbc"[..], // invalid 4-octet sequence (in 2nd octet)
        &b"\xf0\x90\x28\xbc"[..], // invalid 4-octet sequence (in 3rd octet)
        &b"\xf0\x28\x8c\x28"[..], // invalid 4-octet sequence (in 4th octet)
    ];

    for case in tests.iter() {
        let mut b = BytesMut::with_capacity(64);
        b.extend_from_slice(case);
        b.extend_from_slice(b"\n");

        let mut codec = LineCodec::new();
        let x = codec.decode(&mut b);
        println!("x: {:?}", x);
        assert!(x.is_err())
    }
}

#[test]
fn codec_round_trip_leaves_nothing() {
    let mut b = BytesMut::with_capacity(0);
    let mut codec = LineCodec::new();
    codec.encode("hello there".to_string(), &mut b);
    let x = codec.decode(&mut b).unwrap().unwrap();
    assert_eq!("hello there", x);
    assert_eq!(b"", &b[..]);
}

#[test]
fn codec_round_trip_multibyte_text() {
    let mut b = BytesMut::with_capacity(0);
    let mut codec = LineCodec::new();
    codec.encode("na\u{ef}ve caf\u{e9} \u{1f600}".to_string(), &mut b);
    let x = codec.decode(&mut b).unwrap().unwrap();
    assert_eq!("na\u{ef}ve caf\u{e9} \u{1f600}", x);
    assert_eq!(b"", &b[..]);
}

#[test]
fn decoder_handles_every_split_offset() {
    let frame = b"a frame split at every offset";
    let encoded: Vec<u8> = {
        let mut b = BytesMut::with_capacity(0);
        let mut codec = LineCodec::new();
        codec.encode(String::from_utf8(frame.to_vec()).unwrap(), &mut b);
        b[..].to_vec()
    };
    for split in 1..encoded.len() {
        let mut b = BytesMut::with_capacity(0);
        let mut codec = LineCodec::new();
        b.extend_from_slice(&encoded[..split]);
        let x = codec.decode(&mut b).unwrap();
        assert!(x.is_none());
        b.extend_from_slice(&encoded[split..]);
        let x = codec.decode(&mut b).unwrap().unwrap();
        assert_eq!("a frame split at every offset", x);
        assert_eq!(b"", &b[..]);
    }
}

#[test]
fn decoder_consumes_malformed_frame() {
    let mut b = BytesMut::with_capacity(0);
    b.extend_from_slice(b"\xc3\x28\nstill fine\n");
    let mut codec = LineCodec::new();
    let x = codec.decode(&mut b);
    assert_eq!(x, Err(DecodeError));
    let x = codec.decode(&mut b).unwrap().unwrap();
    assert_eq!("still fine", x);
    assert_eq!(b"", &b[..]);
}
