use register_cli::protocol::{
    command_frame, decode, encode, handshake_outcome, handshake_request, validate_handshake, Error,
    Message,
};

fn peer_frame(source: u8, kind: u8, payload: &[u8]) -> Vec<u8> {
    let mut bytes = encode(1, kind, payload).unwrap();
    bytes[4] = source;
    bytes
}

#[test]
fn fragmented_and_joined_frames_preserve_boundaries() {
    let first = peer_frame(0x12, 0, b"value\0");
    let second = peer_frame(0x12, 0xc4, &[0]);
    for split in 0..first.len() {
        let mut buffer = first[..split].to_vec();
        assert_eq!(decode(&mut buffer).unwrap(), None);
        buffer.extend_from_slice(&first[split..]);
        buffer.extend_from_slice(&second);
        assert_eq!(decode(&mut buffer).unwrap().unwrap().payload, b"value\0");
        assert_eq!(decode(&mut buffer).unwrap().unwrap().kind, 0xc4);
        assert!(buffer.is_empty());
    }
}

#[test]
fn rejects_corrupt_sync_and_oversized_length() {
    assert!(decode(&mut vec![0, 0, 0, 0]).is_err());
    let mut frame = peer_frame(0x12, 0, &[]);
    frame[7..9].copy_from_slice(&8193_u16.to_be_bytes());
    assert!(decode(&mut frame).is_err());
}

#[test]
fn encoded_frame_has_header_and_payload() {
    assert_eq!(
        encode(0x12, 0x44, b"ab").unwrap(),
        vec![0xba, 0xd2, 0xac, 0xe5, 0, 0x12, 0x44, 0, 2, b'a', b'b']
    );
    assert_eq!(encode(1, 0, &vec![7; 300]).unwrap()[7..9], [1, 44]);
    assert!(matches!(encode(1, 0, &vec![0; 8193]), Err(Error::Invalid(_))));
    assert!(encode(1, 0, &vec![0; 8192]).is_ok());
}

#[test]
fn decoding_an_encoded_frame_gives_its_message() {
    let mut buffer = encode(0x13, 0x44, b"fpgarr 0x20\0").unwrap();
    buffer.extend_from_slice(&[0xba, 0xd2]);
    let message = decode(&mut buffer).unwrap().unwrap();
    assert_eq!(
        message,
        Message {
            source: 0,
            kind: 0x44,
            payload: b"fpgarr 0x20\0".to_vec()
        }
    );
    assert_eq!(buffer, vec![0xba, 0xd2]);
}

#[test]
fn corrupt_head_stays_in_the_buffer() {
    let mut buffer = vec![1, 2, 3, 4, 5];
    match decode(&mut buffer) {
        Err(Error::Invalid(message)) => {
            assert_eq!(message, "invalid message synchronization bytes")
        }
        other => panic!("unexpected {other:?}"),
    }
    assert_eq!(buffer, vec![1, 2, 3, 4, 5]);
    let mut frame = peer_frame(0x12, 0, &[]);
    frame[7..9].copy_from_slice(&8193_u16.to_be_bytes());
    match decode(&mut frame) {
        Err(Error::Invalid(message)) => assert_eq!(message, "received payload exceeds 8192 bytes"),
        other => panic!("unexpected {other:?}"),
    }
}

#[test]
fn handshake_request_uses_expected_wire_bytes() {
    for force in [false, true] {
        let request = handshake_request(force);
        assert_eq!(
            &request[4..],
            &[0, 0x10, 0x4a, 0, 6, 0, 0xff, 3, 2, 0, u8::from(force)]
        );
    }
}

#[test]
fn command_frame_uses_expected_wire_bytes() {
    let request = command_frame(2, "sample 0x20").unwrap();
    assert_eq!(&request[4..7], &[0, 0x12, 0x44]);
    assert_eq!(&request[9..], b"sample 0x20\0");
}

#[test]
fn invalid_commands_are_rejected_before_framing() {
    for (slot, command, expected) in [
        (46, "sample".to_string(), "slot must be between 0 and 45"),
        (
            2,
            "sample\0extra".to_string(),
            "command must be nonempty and contain no NUL bytes",
        ),
        (
            2,
            String::new(),
            "command must be nonempty and contain no NUL bytes",
        ),
        (2, "x".repeat(260), "command exceeds the 259-byte text limit"),
    ] {
        match command_frame(slot, &command) {
            Err(Error::Invalid(message)) => assert_eq!(message, expected),
            other => panic!("unexpected {other:?}"),
        }
    }
    assert!(command_frame(45, &"x".repeat(259)).is_ok());
}

#[test]
fn handshake_replies_are_classified() {
    assert!(validate_handshake(&[0, 0xff, 3, 2, 0, 1]).is_ok());
    for (payload, expected) in [
        (
            vec![0, 0xff, 3, 6, 0, 0, 0, 0, 0, 0],
            "connection refused: no connection available",
        ),
        (
            vec![0, 0xff, 3, 6, 0, 0, 0, 0, 0, 1],
            "connection refused: trusted authentication required",
        ),
        (
            vec![0, 0xff, 3, 6, 0, 0, 0, 0, 0, 2],
            "connection refused: password rejected",
        ),
        (
            vec![0, 0xff, 3, 6, 0, 0, 0, 0, 1, 0],
            "connection refused: unspecified reason",
        ),
        (vec![0, 0xff, 3, 2, 0, 0], "connection refused: unspecified reason"),
        (
            vec![7, 0xff, 3, 2, 0, 1],
            "connection handshake returned code 7",
        ),
    ] {
        match validate_handshake(&payload) {
            Err(Error::Refused(message)) => assert_eq!(message, expected),
            other => panic!("unexpected {other:?}"),
        }
    }
    for payload in [vec![0, 0xff, 3, 2, 0], vec![0, 0xff, 3, 3, 0, 1]] {
        match validate_handshake(&payload) {
            Err(Error::Invalid(message)) => {
                assert_eq!(message, "malformed connection handshake response")
            }
            other => panic!("unexpected {other:?}"),
        }
    }
}

#[test]
fn command_text_reaches_the_device_unchanged() {
    for text in ["fpgarw 0x20 0xff", "  custom command  ", "é"] {
        let mut frame = command_frame(3, text).unwrap();
        let message = decode(&mut frame).unwrap().unwrap();
        assert!(frame.is_empty());
        assert_eq!(message.kind, 0x44);
        assert_eq!(
            register_cli::session::printed_text(&message.payload).unwrap(),
            text
        );
    }
}

#[test]
fn error_messages_name_the_failure() {
    assert_eq!(Error::Timeout("send").message(), "send timed out");
    assert_eq!(
        Error::Invalid("slot must be between 0 and 45".to_string()).message(),
        "slot must be between 0 and 45"
    );
    assert_eq!(
        Error::Refused("connection refused: password rejected".to_string()).message(),
        "connection refused: password rejected"
    );
    let io = Error::Io(std::io::Error::new(std::io::ErrorKind::Other, "reset"));
    assert!(io.message().starts_with("network error: "));
}

#[test]
fn first_handshake_reply_decides_the_connection() {
    let other = Message { source: 0x12, kind: 0, payload: b"hello\0".to_vec() };
    assert!(handshake_outcome(&other).is_none());
    let wrong_kind = Message { source: 0x10, kind: 0x4a, payload: vec![0, 0xff, 0x03, 2, 1, 0] };
    assert!(handshake_outcome(&wrong_kind).is_none());
    let admitted = Message { source: 0x10, kind: 0xca, payload: vec![0, 0xff, 0x03, 2, 1, 0] };
    assert!(matches!(handshake_outcome(&admitted), Some(Ok(()))));
    let refused = Message {
        source: 0x10,
        kind: 0xca,
        payload: vec![0, 0xff, 0x03, 6, 0, 0, 0, 0, 0, 2],
    };
    match handshake_outcome(&refused) {
        Some(Err(Error::Refused(message))) => {
            assert_eq!(message, "connection refused: password rejected")
        }
        other => panic!("unexpected outcome {other:?}"),
    }
}

#[test]
fn stream_cut_into_chunks_decodes_every_frame_once_in_order() {
    let frames = [
        peer_frame(0x10, 0xca, &[0, 0xff, 0x03, 2, 1, 0]),
        peer_frame(0x13, 0, b"Register 0x20 = 0x2a\0"),
        peer_frame(0x13, 0xc4, &[0]),
    ];
    let mut stream: Vec<u8> = frames.iter().flatten().copied().collect();
    let partial = peer_frame(0x14, 0, b"late\0");
    stream.extend_from_slice(&partial[..partial.len() - 1]);
    for chunk in 1..=stream.len() {
        let mut buffer = Vec::new();
        let mut received = Vec::new();
        for piece in stream.chunks(chunk) {
            buffer.extend_from_slice(piece);
            while let Some(message) = decode(&mut buffer).unwrap() {
                received.push((message.source, message.kind));
            }
        }
        assert_eq!(received, vec![(0x10, 0xca), (0x13, 0), (0x13, 0xc4)]);
        assert_eq!(buffer, partial[..partial.len() - 1].to_vec());
    }
}
