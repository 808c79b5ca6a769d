use rusbit::{build_handshake, encode_message, parse_handshake, parse_message, BValue, HandshakeError, Message, WireError};

const BT_PROTOCOL_STR: &str = "BitTorrent protocol";

fn create_handshake(info_hash: &[u8; 20], peer_id: &[u8; 20]) -> Vec<u8> {
    let mut handshake = Vec::with_capacity(68);
    handshake.push(19);
    handshake.extend_from_slice(BT_PROTOCOL_STR.as_bytes());
    handshake.extend_from_slice(&[0_u8; 8]);
    handshake.extend_from_slice(info_hash);
    handshake.extend_from_slice(peer_id);
    handshake
}

#[test]
fn test_send_and_receive_handshake() {
    let info_hash = [1u8; 20];
    let remote_peer_id = [3u8; 20];
    let handshake = create_handshake(&info_hash, &remote_peer_id);
    let (received_peer_id, _extension) =
        parse_handshake(&handshake, &info_hash).expect("Handshake validation failed");
    assert_eq!(received_peer_id, remote_peer_id);
}

#[test]
fn test_send_handshake() {
    let info_hash = [4u8; 20];
    let peer_id = [5u8; 20];
    let buf = build_handshake(&info_hash, &peer_id, false);
    assert_eq!(buf.len(), 68);
    assert_eq!(buf[0], 19);
    assert_eq!(&buf[1..20], BT_PROTOCOL_STR.as_bytes());
    assert_eq!(&buf[20..28], &[0u8; 8]);
    assert_eq!(&buf[28..48], &info_hash);
    assert_eq!(&buf[48..68], &peer_id);
}

#[test]
fn test_send_handshake_extension() {
    let info_hash = [4u8; 20];
    let peer_id = [5u8; 20];
    let buf = build_handshake(&info_hash, &peer_id, true);
    let mut reserved = [0u8; 8];
    reserved[5] = 0x10;
    assert_eq!(buf[0], 19);
    assert_eq!(&buf[1..20], BT_PROTOCOL_STR.as_bytes());
    assert_eq!(&buf[20..28], &reserved);
    assert_eq!(&buf[28..48], &info_hash);
    assert_eq!(&buf[48..68], &peer_id);
}

#[test]
fn handshake_scenario_bytes() {
    let buf = build_handshake(&[b'A'; 20], &[b'B'; 20], true);
    let mut expected = vec![0x13];
    expected.extend_from_slice(b"BitTorrent protocol");
    expected.extend_from_slice(&[0, 0, 0, 0, 0, 0x10, 0, 0]);
    expected.extend_from_slice(&[b'A'; 20]);
    expected.extend_from_slice(&[b'B'; 20]);
    assert_eq!(buf, expected);
    assert_eq!(parse_handshake(&buf, &[b'A'; 20]), Ok(([b'B'; 20], true)));
}

#[test]
fn handshake_refusals() {
    let good = build_handshake(&[1; 20], &[2; 20], false);
    assert_eq!(parse_handshake(&good[..67], &[1; 20]), Err(HandshakeError::BadLength));
    let mut b = good.clone();
    b[0] = 18;
    assert_eq!(parse_handshake(&b, &[1; 20]), Err(HandshakeError::BadProtocolLength));
    let mut b = good.clone();
    b[3] = b'x';
    assert_eq!(parse_handshake(&b, &[1; 20]), Err(HandshakeError::BadProtocolName));
    assert_eq!(parse_handshake(&good, &[9; 20]), Err(HandshakeError::InfoHashMismatch));
}

#[test]
fn message_frames() {
    assert_eq!(encode_message(&Message::Interested).unwrap(), vec![0, 0, 0, 1, 2]);
    assert_eq!(encode_message(&Message::KeepAlive).unwrap(), vec![0, 0, 0, 0]);
    assert_eq!(
        encode_message(&Message::Request { index: 1, begin: 16384, length: 0x01020304 }).unwrap(),
        vec![0, 0, 0, 13, 6, 0, 0, 0, 1, 0, 0, 0x40, 0, 1, 2, 3, 4]
    );
    assert_eq!(
        encode_message(&Message::RequestMetaData { ext_msg_id: 3, payload: b"de".to_vec() }).unwrap(),
        vec![0, 0, 0, 4, 20, 3, b'd', b'e']
    );
}

#[test]
fn message_parsing() {
    assert_eq!(parse_message(&[]).unwrap(), Message::KeepAlive);
    assert_eq!(parse_message(&[0]).unwrap(), Message::Choke);
    assert_eq!(parse_message(&[1]).unwrap(), Message::Unchoke);
    assert_eq!(parse_message(&[5, 0xff]).unwrap(), Message::Bitfield);
    assert_eq!(parse_message(&[4, 0, 0, 0, 1]).unwrap(), Message::Ignored(4));
    assert_eq!(parse_message(&[7, 1, 2, 3]).unwrap(), Message::Piece { payload: vec![1, 2, 3] });
    assert_eq!(parse_message(&[6, 0, 0, 0, 1, 0, 0, 0, 2, 0, 0, 0, 3]).unwrap(), Message::Request { index: 1, begin: 2, length: 3 });
    assert_eq!(parse_message(&[6, 0]).unwrap_err(), WireError::Malformed);
    assert_eq!(parse_message(&[20]).unwrap_err(), WireError::EmptyExtended);
    assert_eq!(parse_message(&[42]).unwrap_err(), WireError::UnknownId(42));
    assert_eq!(
        parse_message(b"\x14\x00de").unwrap(),
        Message::ExtendedHandshake(BValue::Dict(vec![]))
    );
    assert_eq!(
        parse_message(b"\x14\x03dexyz").unwrap(),
        Message::ReceiveMetaData { ext_msg_id: 3, dict: BValue::Dict(vec![]), payload: b"xyz".to_vec() }
    );
    assert!(matches!(parse_message(b"\x14\x00d"), Err(WireError::Bencode(_))));
}
