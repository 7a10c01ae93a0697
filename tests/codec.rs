use server_udp::{DecodeError, Message};

fn all_messages() -> Vec<Message> {
    vec![
        Message::Ping,
        Message::Handshake("Aria".to_string()),
        Message::Handshake(String::new()),
        Message::Handshake("Ärïa ✓".to_string()),
        Message::Ack(1),
        Message::Ack(u32::MAX),
        Message::Leave(0x0102_0304),
        Message::CreateRoom("Dungeon".to_string(), "s3cr3t".to_string()),
        Message::CreateRoom(String::new(), String::new()),
        Message::JoinRoom(7, "pw".to_string()),
        Message::Error("Incorrect password".to_string()),
    ]
}

#[test]
fn serialize_ping() {
    assert_eq!(Message::Ping.serialize(), vec![0]);
}

#[test]
fn serialize_handshake() {
    assert_eq!(
        Message::Handshake("Aria".to_string()).serialize(),
        vec![1, 4, 0, b'A', b'r', b'i', b'a']
    );
}

#[test]
fn serialize_ack_and_leave_little_endian() {
    assert_eq!(Message::Ack(1).serialize(), vec![2, 1, 0, 0, 0]);
    assert_eq!(Message::Leave(0x0102_0304).serialize(), vec![3, 4, 3, 2, 1]);
}

#[test]
fn serialize_create_room_uses_two_byte_lengths() {
    let mut expected = vec![5, 7, 0];
    expected.extend_from_slice(b"Dungeon");
    expected.extend_from_slice(&[6, 0]);
    expected.extend_from_slice(b"s3cr3t");
    assert_eq!(
        Message::CreateRoom("Dungeon".to_string(), "s3cr3t".to_string()).serialize(),
        expected
    );
}

#[test]
fn serialize_join_room() {
    assert_eq!(
        Message::JoinRoom(1, "pw".to_string()).serialize(),
        vec![6, 1, 0, 0, 0, 2, 0, b'p', b'w']
    );
}

#[test]
fn serialize_error_has_its_own_tag() {
    assert_eq!(Message::Error("x".to_string()).serialize(), vec![9, 1, 0, b'x']);
}

#[test]
fn serialize_counts_utf8_bytes() {
    let bytes = Message::Handshake("é".to_string()).serialize();
    assert_eq!(bytes, vec![1, 2, 0, 0xc3, 0xa9]);
}

#[test]
fn round_trip_every_variant() {
    for m in all_messages() {
        let bytes = m.serialize();
        assert_eq!(Message::deserialize(&bytes), Ok(m));
    }
}

#[test]
fn every_proper_prefix_is_truncated() {
    for m in all_messages() {
        let bytes = m.serialize();
        for k in 1..bytes.len() {
            assert_eq!(
                Message::deserialize(&bytes[..k]),
                Err(DecodeError::Truncated),
                "prefix {k} of {m:?}"
            );
        }
    }
}

#[test]
fn empty_packet_is_rejected() {
    assert_eq!(Message::deserialize(&[]), Err(DecodeError::Empty));
}

#[test]
fn unknown_and_reserved_tags_are_rejected() {
    for tag in [4u8, 7, 8, 10, 200, 255] {
        assert_eq!(Message::deserialize(&[tag, 0, 0, 0, 0]), Err(DecodeError::UnknownCommand));
    }
}

#[test]
fn invalid_utf8_is_rejected() {
    assert_eq!(Message::deserialize(&[1, 1, 0, 0xff]), Err(DecodeError::InvalidText));
    assert_eq!(
        Message::deserialize(&[5, 1, 0, b'a', 1, 0, 0xc3]),
        Err(DecodeError::InvalidText)
    );
    assert_eq!(
        Message::deserialize(&[6, 1, 0, 0, 0, 2, 0, 0xc3, 0x28]),
        Err(DecodeError::InvalidText)
    );
}

#[test]
fn declared_length_beyond_buffer_is_truncated() {
    assert_eq!(Message::deserialize(&[1, 0xff, 0xff, b'a']), Err(DecodeError::Truncated));
    assert_eq!(
        Message::deserialize(&[5, 1, 0, b'a', 9, 0, b'b']),
        Err(DecodeError::Truncated)
    );
    assert_eq!(Message::deserialize(&[6, 1, 0, 0, 0, 3, 0, b'x']), Err(DecodeError::Truncated));
}

#[test]
fn trailing_bytes_are_ignored() {
    assert_eq!(Message::deserialize(&[0, 9, 9]), Ok(Message::Ping));
    assert_eq!(Message::deserialize(&[2, 5, 0, 0, 0, 1]), Ok(Message::Ack(5)));
}

#[test]
fn decodes_text_from_bytes() {
    assert_eq!(
        Message::deserialize(&[1, 2, 0, 0xc3, 0xa9]),
        Ok(Message::Handshake("é".to_string()))
    );
}
