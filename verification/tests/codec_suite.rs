//! The framing codec and the message codec: exact wire bytes, round trips,
//! the frame-size ceiling, and malformed inputs.

use bore_core::ids::UuidBytes;
use bore_core::msg::{
    decode_client_body, decode_client_frame, decode_server_body, decode_server_frame,
    encode_client_body, encode_client_frame, encode_server_body, encode_server_frame,
    ClientMessage, ServerMessage,
};
use bore_core::wire::{encode_frame, split_frame, FrameError, CONTROL_PORT, MAX_FRAME_LENGTH};

#[test]
fn frame_constants() {
    assert_eq!(MAX_FRAME_LENGTH, 65536);
    assert_eq!(CONTROL_PORT, 7835);
}

#[test]
fn frame_encodes_length_space_payload() {
    let framed = encode_frame(b"{\"Hello\":1234}");
    assert_eq!(framed, b"14 {\"Hello\":1234}".to_vec());
}

#[test]
fn frame_split_consumes_exactly_digits_space_and_payload() {
    // A frame of declared length L occupies len(digits) + 1 + L bytes.
    let mut buf = encode_frame(b"{\"Heartbeat\":null}");
    let frame_len = buf.len();
    buf.extend_from_slice(b"trailing bytes of the next frame");
    let (payload, consumed) = split_frame(&buf).unwrap().unwrap();
    assert_eq!(payload, b"{\"Heartbeat\":null}".to_vec());
    assert_eq!(consumed, frame_len);
    assert_eq!(consumed, 2 + 1 + 18);
}

#[test]
fn frame_at_ceiling_decodes() {
    // LEN == 65536 decodes.
    let payload = vec![0x61u8; 65536];
    let framed = encode_frame(&payload);
    let (decoded, consumed) = split_frame(&framed).unwrap().unwrap();
    assert_eq!(decoded, payload);
    assert_eq!(consumed, 5 + 1 + 65536);
}

#[test]
fn frame_over_ceiling_is_too_large() {
    // LEN == 65537 errors as FrameTooLarge, before the payload arrives.
    let header = b"65537 ".to_vec();
    assert_eq!(split_frame(&header), Err(FrameError::FrameTooLarge));
}

#[test]
fn frame_incomplete_and_malformed_prefixes() {
    assert_eq!(split_frame(b""), Ok(None));
    assert_eq!(split_frame(b"12"), Ok(None));
    assert_eq!(split_frame(b"12 {\"Hello\""), Ok(None));
    assert_eq!(split_frame(b"x12 {}"), Err(FrameError::Malformed));
    assert_eq!(split_frame(b"12x{}"), Err(FrameError::Malformed));
    assert_eq!(split_frame(b"012 {}"), Err(FrameError::Malformed));
}

fn uuid_of(text: &str) -> UuidBytes {
    bore_core::ids::parse_uuid_text(text.as_bytes()).expect("test uuid must parse")
}

#[test]
fn client_messages_round_trip() {
    let cases: Vec<(ClientMessage, &[u8])> = vec![
        (
            ClientMessage::Authenticate(b"sk_live_abc123".to_vec()),
            b"{\"Authenticate\":\"sk_live_abc123\"}",
        ),
        (ClientMessage::Hello(1234), b"{\"Hello\":1234}"),
        (ClientMessage::Hello(0), b"{\"Hello\":0}"),
        (
            ClientMessage::Accept(uuid_of("0f8b4c6e-1a2b-4c3d-8e4f-5a6b7c8d9e0f")),
            b"{\"Accept\":\"0f8b4c6e-1a2b-4c3d-8e4f-5a6b7c8d9e0f\"}",
        ),
    ];
    for (msg, wire) in cases {
        let body = encode_client_body(&msg);
        assert_eq!(body, wire.to_vec());
        let back = decode_client_body(&body).expect("canonical body must decode");
        let again = encode_client_body(&back);
        assert_eq!(again, wire.to_vec());
    }
}

#[test]
fn server_messages_round_trip() {
    let cases: Vec<(ServerMessage, &[u8])> = vec![
        (
            ServerMessage::Challenge(uuid_of("11111111-2222-3333-4444-555555555555")),
            b"{\"Challenge\":\"11111111-2222-3333-4444-555555555555\"}",
        ),
        (ServerMessage::Hello(40123), b"{\"Hello\":40123}"),
        (
            ServerMessage::Connection(uuid_of("aaaaaaaa-bbbb-4ccc-8ddd-eeeeeeeeffff")),
            b"{\"Connection\":\"aaaaaaaa-bbbb-4ccc-8ddd-eeeeeeeeffff\"}",
        ),
        (ServerMessage::Heartbeat, b"{\"Heartbeat\":null}"),
        (
            ServerMessage::Error(b"Protocol error".to_vec()),
            b"{\"Error\":\"Protocol error\"}",
        ),
    ];
    for (msg, wire) in cases {
        let body = encode_server_body(&msg);
        assert_eq!(body, wire.to_vec());
        let back = decode_server_body(&body).expect("canonical body must decode");
        let again = encode_server_body(&back);
        assert_eq!(again, wire.to_vec());
    }
}

#[test]
fn string_escapes_round_trip() {
    let text = b"a \"quoted\" back\\slash\ttab\nnewline \x01ctl".to_vec();
    let msg = ServerMessage::Error(text.clone());
    let body = encode_server_body(&msg);
    assert_eq!(
        body,
        b"{\"Error\":\"a \\\"quoted\\\" back\\\\slash\\ttab\\nnewline \\u0001ctl\"}".to_vec()
    );
    match decode_server_body(&body) {
        Some(ServerMessage::Error(back)) => assert_eq!(back, text),
        other => panic!("expected an Error message, got {:?}", other),
    }
}

#[test]
fn non_utf8_string_is_rejected() {
    // A lone continuation byte inside a string is not UTF-8.
    assert!(decode_client_body(b"{\"Authenticate\":\"\x80\"}").is_none());
    // Overlong encoding of '/' is not UTF-8 either.
    assert!(decode_client_body(b"{\"Authenticate\":\"\xc0\xaf\"}").is_none());
    // A well-formed two-byte sequence is accepted.
    assert!(decode_client_body(b"{\"Authenticate\":\"\xc3\xa9\"}").is_some());
}

#[test]
fn malformed_bodies_are_rejected() {
    assert!(decode_client_body(b"").is_none());
    assert!(decode_client_body(b"{\"Hello\":}").is_none());
    assert!(decode_client_body(b"{\"Hello\":12a}").is_none());
    assert!(decode_client_body(b"{\"Hello\":012}").is_none());
    assert!(decode_client_body(b"{\"Hello\":65536}").is_none());
    assert!(decode_client_body(b"{\"Hello\":1234} ").is_none());
    assert!(decode_client_body(b"{\"Accept\":\"not-a-uuid\"}").is_none());
    assert!(decode_client_body(b"{\"Accept\":\"AAAAAAAA-BBBB-4CCC-8DDD-EEEEEEEEFFFF\"}").is_none());
    assert!(decode_server_body(b"{\"Heartbeat\":true}").is_none());
    assert!(decode_server_body(b"{\"Unknown\":1}").is_none());
}

#[test]
fn whole_frames_round_trip() {
    let msg = ClientMessage::Hello(7000);
    let framed = encode_client_frame(&msg).expect("a Hello fits any frame");
    let (back, consumed) = decode_client_frame(&framed).unwrap().unwrap();
    assert_eq!(consumed, framed.len());
    assert!(matches!(back, ClientMessage::Hello(7000)));

    let msg = ServerMessage::Error(b"port already in use".to_vec());
    let framed = encode_server_frame(&msg).expect("a short error fits any frame");
    let (back, consumed) = decode_server_frame(&framed).unwrap().unwrap();
    assert_eq!(consumed, framed.len());
    assert!(matches!(back, ServerMessage::Error(m) if m == b"port already in use".to_vec()));
}

#[test]
fn frame_ceiling_through_messages() {
    // The body {"Error":"..."} is 12 bytes longer than its content: a
    // content of 65524 bytes fills the frame exactly, one byte more does
    // not fit.
    let at_limit = ServerMessage::Error(vec![0x78u8; 65524]);
    let framed = encode_server_frame(&at_limit).expect("a body of 65536 bytes still fits");
    let (back, _) = decode_server_frame(&framed).unwrap().unwrap();
    assert!(matches!(back, ServerMessage::Error(m) if m.len() == 65524));

    let over_limit = ServerMessage::Error(vec![0x78u8; 65525]);
    assert!(encode_server_frame(&over_limit).is_none());
}

#[test]
fn port_boundaries_round_trip() {
    for port in [0u16, 1, 7835, 65535] {
        let body = encode_server_body(&ServerMessage::Hello(port));
        match decode_server_body(&body) {
            Some(ServerMessage::Hello(p)) => assert_eq!(p, port),
            other => panic!("expected Hello back, got {:?}", other),
        }
    }
    let body = encode_server_body(&ServerMessage::Error(Vec::new()));
    assert_eq!(body, b"{\"Error\":\"\"}".to_vec());
    assert!(matches!(
        decode_server_body(&body),
        Some(ServerMessage::Error(m)) if m.is_empty()
    ));
}

#[test]
fn uuid_text_round_trips() {
    let id = UuidBytes::from_bytes((0u8..16).collect());
    let mut text = Vec::new();
    bore_core::ids::push_uuid_text(&mut text, &id);
    assert_eq!(text, b"00010203-0405-0607-0809-0a0b0c0d0e0f".to_vec());
    let back = bore_core::ids::parse_uuid_text(&text).expect("formatted uuid must parse");
    assert_eq!(back.as_bytes(), id.as_bytes());
    assert!(bore_core::ids::parse_uuid_text(b"00010203-0405-0607-0809").is_none());
}

#[test]
fn random_ids_are_well_formed_and_distinct() {
    let a = UuidBytes::new_random();
    let b = UuidBytes::new_random();
    assert_eq!(a.as_bytes().len(), 16);
    assert_eq!(b.as_bytes().len(), 16);
    assert!(!a.same(&b), "two fresh random ids must differ");
    // A generated id serialises to the canonical text the uuid crate prints.
    let mut text = Vec::new();
    bore_core::ids::push_uuid_text(&mut text, &a);
    let reference = uuid::Uuid::from_slice(a.as_bytes()).unwrap().to_string();
    assert_eq!(String::from_utf8(text).unwrap(), reference);
}

#[test]
fn hex_round_trips_and_rejects() {
    let bytes = vec![0x00u8, 0x0f, 0xa5, 0xff];
    let encoded = bore_core::hexcode::hex_encode(&bytes);
    assert_eq!(encoded, b"000fa5ff".to_vec());
    assert_eq!(encoded, hex::encode(&bytes).into_bytes());
    let decoded = bore_core::hexcode::hex_decode(&encoded).expect("valid hex must decode");
    assert_eq!(decoded, bytes);
    assert_eq!(
        bore_core::hexcode::hex_decode(b"A5FF").expect("uppercase hex decodes"),
        vec![0xa5u8, 0xff]
    );
    assert!(bore_core::hexcode::hex_decode(b"abc").is_none());
    assert!(bore_core::hexcode::hex_decode(b"zz").is_none());
}
