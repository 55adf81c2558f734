use bittorrent::errors::TorrentError;
use bittorrent::messaging::{
    build_handshake, frame_message, message_type_id, message_type_of_id, parse_frame_body,
    parse_frame_length, parse_handshake, Message, MessageType,
};

#[test]
fn message_ids_follow_the_wire_table() {
    assert_eq!(message_type_id(MessageType::Choke), 0);
    assert_eq!(message_type_id(MessageType::Unchoke), 1);
    assert_eq!(message_type_id(MessageType::Interested), 2);
    assert_eq!(message_type_id(MessageType::NotInterested), 3);
    assert_eq!(message_type_id(MessageType::Have), 4);
    assert_eq!(message_type_id(MessageType::Bitfield), 5);
    assert_eq!(message_type_id(MessageType::Request), 6);
    assert_eq!(message_type_id(MessageType::Piece), 7);
    assert_eq!(message_type_id(MessageType::Cancel), 8);
    assert_eq!(message_type_id(MessageType::Extended), 20);
}

#[test]
fn unknown_message_id_is_rejected() {
    assert_eq!(message_type_of_id(7), Ok(MessageType::Piece));
    assert_eq!(
        message_type_of_id(9),
        Err(TorrentError::UnexpectedMessage)
    );
    assert_eq!(
        message_type_of_id(255),
        Err(TorrentError::UnexpectedMessage)
    );
}

#[test]
fn frames_carry_length_prefix_id_and_payload() {
    let m = Message { message_type: MessageType::Interested, payload: vec![] };
    assert_eq!(frame_message(&m), vec![0, 0, 0, 1, 2]);

    let m = Message { message_type: MessageType::Have, payload: vec![0, 0, 0, 9] };
    assert_eq!(frame_message(&m), vec![0, 0, 0, 5, 4, 0, 0, 0, 9]);
}

#[test]
fn frame_round_trip() {
    let m = Message { message_type: MessageType::Piece, payload: vec![1, 2, 3, 4, 5] };
    let frame = frame_message(&m);
    let n = parse_frame_length(&frame[0..4].to_vec());
    assert_eq!(n as usize, frame.len() - 4);
    let body = frame[4..].to_vec();
    let back = parse_frame_body(&body).unwrap();
    assert_eq!(back, m);
}

#[test]
fn keep_alive_frame_has_length_zero() {
    assert_eq!(parse_frame_length(&vec![0, 0, 0, 0]), 0);
}

#[test]
fn frame_body_with_unknown_id_is_rejected() {
    assert_eq!(
        parse_frame_body(&vec![13, 1, 2]),
        Err(TorrentError::UnexpectedMessage)
    );
    assert_eq!(
        parse_frame_body(&Vec::new()),
        Err(TorrentError::UnexpectedMessage)
    );
}

#[test]
fn handshake_has_the_documented_layout() {
    let info_hash: Vec<u8> = (0..20).collect();
    let hs = build_handshake(&info_hash, false);
    assert_eq!(hs.len(), 68);
    assert_eq!(hs[0], 19);
    assert_eq!(&hs[1..20], b"BitTorrent protocol");
    assert_eq!(&hs[20..28], &[0u8; 8]);
    assert_eq!(&hs[28..48], info_hash.as_slice());
    assert_eq!(&hs[48..68], b"00112233445566778899");
}

#[test]
fn handshake_extension_bit_is_byte_25() {
    let info_hash = vec![7u8; 20];
    let hs = build_handshake(&info_hash, true);
    assert_eq!(hs[25], 0x10);
    let hs = build_handshake(&info_hash, false);
    assert_eq!(hs[25], 0);
}

#[test]
fn handshake_reply_is_checked_against_the_info_hash() {
    let info_hash = vec![7u8; 20];
    let mut reply = build_handshake(&info_hash, true);
    // Pretend the peer has its own id.
    for i in 48..68 {
        reply[i] = 0xab;
    }
    let h = parse_handshake(&reply, &info_hash).unwrap();
    assert!(h.extensions_enabled);
    assert_eq!(h.peer_id, vec![0xab; 20]);
    assert_eq!(h.peer_id_hex(), "ab".repeat(20));

    let other_hash = vec![8u8; 20];
    assert_eq!(
        parse_handshake(&reply, &other_hash),
        Err(TorrentError::HandshakeMismatch)
    );
}
