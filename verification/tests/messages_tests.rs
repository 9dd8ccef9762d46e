use agma::{
    ToPlayerMessageType, UpdateWorldMessage, PlayerToServerMessage, KeyboardActionMessage,
    AwkFrameMessage, HandshakeMessageType, ServerHandshakeAction, ClientHandshakeAction,
    server_handshake_step, client_handshake_step, compress_packet, encode_player_packet,
    rle_headers_well_formed, decompress_packet, split_player_packet,
};

#[test]
fn player_message_tags() {
    assert_eq!(PlayerToServerMessage::AwkFrameMessage.to_u8(), 0);
    assert_eq!(PlayerToServerMessage::MouseAction.to_u8(), 1);
    assert_eq!(PlayerToServerMessage::KeyboardAction.to_u8(), 2);
}

#[test]
fn player_message_tag_round_trip() {
    for m in [
        PlayerToServerMessage::AwkFrameMessage,
        PlayerToServerMessage::MouseAction,
        PlayerToServerMessage::KeyboardAction,
    ] {
        assert_eq!(PlayerToServerMessage::from_u8(m.to_u8()), m);
    }
    for v in 0u8..3 {
        assert_eq!(PlayerToServerMessage::from_u8(v).to_u8(), v);
    }
}

#[test]
fn update_world_message_new_is_a_whole_state() {
    let m = UpdateWorldMessage::new(7, 3, vec![1, 2, 3]);
    assert_eq!(m.message_type, ToPlayerMessageType::StateWorld);
    assert_eq!(m.current_frame_number, 7);
    assert_eq!(m.delta_frame_number, 3);
    assert_eq!(m.data, vec![1, 2, 3]);
}

#[test]
fn keyboard_and_awk_messages() {
    let k = KeyboardActionMessage::new(vec![1, 0, 2]);
    assert_eq!(k.message_type, PlayerToServerMessage::KeyboardAction);
    assert_eq!(k.input_messages, vec![1, 0, 2]);
    let a = AwkFrameMessage::new(42);
    assert_eq!(a.message_type, PlayerToServerMessage::AwkFrameMessage);
    assert_eq!(a.frame_number, 42);
}

#[test]
fn compress_packet_is_the_run_length_encoding() {
    let bytes = vec![255, 255, 85, 84, 0, 0, 0, 183];
    let packed = compress_packet(bytes.clone());
    assert_eq!(packed, vec![11, 4, 85, 84, 13, 2, 183]);
    assert_ne!(packed, bytes);
    assert_eq!(bitfield_rle::decode(&packed).unwrap(), bytes);
}

#[test]
fn player_packet_starts_with_the_tag_byte() {
    let body = vec![0, 0, 0, 9];
    let packet = encode_player_packet(PlayerToServerMessage::MouseAction, body.clone());
    let unpacked = bitfield_rle::decode(&packet).unwrap();
    assert_eq!(unpacked[0], 1);
    assert_eq!(&unpacked[1..], &body[..]);
    assert_eq!(packet, bitfield_rle::encode(vec![1, 0, 0, 0, 9]));
}

#[test]
fn handshake_messages_are_four_bytes() {
    assert_eq!(HandshakeMessageType::Hello.to_u8(), [0, 0, 0, 0]);
    assert_eq!(HandshakeMessageType::HelloAwk.to_u8(), [1, 0, 0, 0]);
    assert_eq!(HandshakeMessageType::Join.to_u8(), [2, 0, 0, 0]);
    assert_eq!(HandshakeMessageType::GameSettings(7, 4561).to_u8(), [3, 7, 0xD1, 0x11]);
}

#[test]
fn handshake_messages_read_back() {
    for m in [
        HandshakeMessageType::Hello,
        HandshakeMessageType::HelloAwk,
        HandshakeMessageType::Join,
        HandshakeMessageType::GameSettings(0, 4560),
        HandshakeMessageType::GameSettings(255, u16::MAX),
    ] {
        assert_eq!(HandshakeMessageType::from_u8(m.to_u8()), Some(m));
    }
    assert_eq!(HandshakeMessageType::from_u8([1, 9, 9, 9]), Some(HandshakeMessageType::HelloAwk));
    assert_eq!(HandshakeMessageType::from_u8([4, 0, 0, 0]), None);
    assert_eq!(HandshakeMessageType::from_u8([255, 1, 2, 3]), None);
}

#[test]
fn handshake_runs_to_a_join() {
    let hello = HandshakeMessageType::Hello.to_u8();
    let reply = server_handshake_step(hello);
    assert_eq!(reply, ServerHandshakeAction::Reply(HandshakeMessageType::HelloAwk));
    let join = client_handshake_step(HandshakeMessageType::HelloAwk.to_u8());
    assert_eq!(join, ClientHandshakeAction::Reply(HandshakeMessageType::Join));
    assert_eq!(server_handshake_step(HandshakeMessageType::Join.to_u8()), ServerHandshakeAction::RequestJoin);
    assert_eq!(
        client_handshake_step(HandshakeMessageType::GameSettings(3, 4563).to_u8()),
        ClientHandshakeAction::Joined(3, 4563)
    );
}

#[test]
fn handshake_steps_ignore_what_they_do_not_expect() {
    assert_eq!(server_handshake_step(HandshakeMessageType::HelloAwk.to_u8()), ServerHandshakeAction::Ignore);
    assert_eq!(server_handshake_step(HandshakeMessageType::GameSettings(1, 2).to_u8()), ServerHandshakeAction::Ignore);
    assert_eq!(server_handshake_step([7, 0, 0, 0]), ServerHandshakeAction::Ignore);
    assert_eq!(client_handshake_step(HandshakeMessageType::Hello.to_u8()), ClientHandshakeAction::Ignore);
    assert_eq!(client_handshake_step(HandshakeMessageType::Join.to_u8()), ClientHandshakeAction::Ignore);
    assert_eq!(client_handshake_step([200, 1, 1, 1]), ClientHandshakeAction::Ignore);
}

#[test]
fn datagrams_decompress_to_what_was_compressed() {
    let bytes = vec![255, 255, 85, 84, 0, 0, 0, 183, 1, 2, 3];
    let packed = compress_packet(bytes.clone());
    assert!(rle_headers_well_formed(&packed));
    assert_eq!(decompress_packet(&packed), Some(bytes));
    assert_eq!(decompress_packet(&vec![]), Some(vec![]));
}

#[test]
fn malformed_datagrams_do_not_decompress() {
    // a header whose varint never ends
    assert!(!rle_headers_well_formed(&vec![128]));
    assert_eq!(decompress_packet(&vec![128]), None);
    // a varint of ten bytes
    assert!(!rle_headers_well_formed(&vec![129, 129, 129, 129, 129, 129, 129, 129, 129, 1]));
    // a literal run of three bytes with only one present
    assert!(rle_headers_well_formed(&vec![6, 9]));
    assert_eq!(decompress_packet(&vec![6, 9]), None);
    // a repeated run of three 255s, then a literal byte
    assert_eq!(decompress_packet(&vec![15, 2, 7]), Some(vec![255, 255, 255, 7]));
}

#[test]
fn player_datagrams_split_into_kind_and_body() {
    let body = vec![0, 0, 0, 9];
    let packet = encode_player_packet(PlayerToServerMessage::KeyboardAction, body.clone());
    assert_eq!(split_player_packet(&packet), Some((PlayerToServerMessage::KeyboardAction, body)));
    let ack = encode_player_packet(PlayerToServerMessage::AwkFrameMessage, vec![7]);
    assert_eq!(split_player_packet(&ack), Some((PlayerToServerMessage::AwkFrameMessage, vec![7])));
    assert_eq!(split_player_packet(&compress_packet(vec![3, 1])), None);
    assert_eq!(split_player_packet(&compress_packet(vec![])), None);
    assert_eq!(split_player_packet(&vec![128]), None);
}

#[test]
fn what_is_compressed_decompresses_to_itself() {
    for bytes in [vec![], vec![0], vec![255; 40], vec![1, 0, 0, 0, 255, 255, 7, 7, 7, 0], (0..=255u8).collect::<Vec<u8>>()] {
        let packed = compress_packet(bytes.clone());
        assert_eq!(decompress_packet(&packed), Some(bytes));
    }
}

#[test]
fn what_a_player_sends_the_server_splits_back() {
    for kind in [PlayerToServerMessage::AwkFrameMessage, PlayerToServerMessage::MouseAction, PlayerToServerMessage::KeyboardAction] {
        let body = vec![0, 0, 255, 3, 9, 0];
        assert_eq!(split_player_packet(&encode_player_packet(kind, body.clone())), Some((kind, body)));
    }
}
