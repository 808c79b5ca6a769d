use rusbit::{
    build_handshake, decode_bencode, encode_bvalue, Action, Message, Peer, PieceError, PieceManager, PieceOutcome,
    PieceQueue, SessionError, TorrentInfo,
};
use sha1::{Digest, Sha1};

fn info_of(length: usize, piece_length: usize, pieces: Vec<[u8; 20]>) -> TorrentInfo {
    TorrentInfo { length, name: "f".to_string(), piece_length, pieces }
}

fn piece_payload(index: u32, begin: u32, block: &[u8]) -> Vec<u8> {
    let mut p = index.to_be_bytes().to_vec();
    p.extend_from_slice(&begin.to_be_bytes());
    p.extend_from_slice(block);
    p
}

#[test]
fn two_blocks_make_a_verified_piece() {
    let data = vec![b'a'; 32768];
    let digest: [u8; 20] = Sha1::digest(&data).into();
    let info = info_of(32768, 32768, vec![digest]);
    let mut peer = Peer::new([1; 20], [2; 20], Some(info));
    let mut q = PieceQueue::for_pieces(1);
    assert_eq!(q.get_next_piece(), Some(0));
    let first = peer
        .on_message(Message::Piece { payload: piece_payload(0, 0, &data[..16384]) }, 0, false, &mut q, true)
        .unwrap();
    assert_eq!(first, Action::Wait);
    let second = peer
        .on_message(Message::Piece { payload: piece_payload(0, 16384, &data[16384..]) }, 0, false, &mut q, true)
        .unwrap();
    assert_eq!(second, Action::Write { index: 0, offset: 0, data: data.clone() });
    q.mark_piece_complete(0);
    assert!(q.is_finished());
}

#[test]
fn corrupt_piece_is_requeued() {
    let info = info_of(3 * 16384, 16384, vec![[0; 20], [0; 20], [9; 20]]);
    let mut mgr = PieceManager::new(info);
    let mut q = PieceQueue::for_pieces(3);
    q.get_next_piece();
    q.get_next_piece();
    assert_eq!(q.get_next_piece(), Some(2));
    let r = mgr.handle_piece(&piece_payload(2, 0, &[1u8; 16384]), &mut q, true);
    assert_eq!(r, Err(PieceError::Corrupt(2)));
    assert_eq!(q.get_next_piece(), Some(2));
}

#[test]
fn block_requests_cover_last_piece() {
    let info = info_of(16384 * 2 + 100, 32768, vec![[0; 20], [0; 20]]);
    let mgr = PieceManager::new(info);
    assert_eq!(
        mgr.request_blocks(0),
        vec![
            Message::Request { index: 0, begin: 0, length: 16384 },
            Message::Request { index: 0, begin: 16384, length: 16384 },
        ]
    );
    assert_eq!(mgr.request_blocks(1), vec![Message::Request { index: 1, begin: 0, length: 100 }]);
}

#[test]
fn short_and_unknown_payloads() {
    let mut mgr = PieceManager::new(info_of(10, 10, vec![[0; 20]]));
    let mut q = PieceQueue::for_pieces(1);
    assert_eq!(mgr.handle_piece(&[0, 0, 0], &mut q, true), Err(PieceError::TooShort));
    assert_eq!(mgr.handle_piece(&piece_payload(1, 0, b"x"), &mut q, true), Err(PieceError::UnknownPiece(1)));
    assert_eq!(mgr.handle_piece(&piece_payload(0, 0, b"abc"), &mut q, false), Ok(PieceOutcome::Partial));
}

#[test]
fn session_message_flow() {
    let info = info_of(100, 100, vec![[0; 20]]);
    let mut peer = Peer::new([7; 20], [8; 20], Some(info));
    peer.on_handshake(&build_handshake(&[7; 20], &[9; 20], false), true).unwrap();
    assert_eq!(peer.remote_peer_id, Some([9; 20]));
    assert!(!peer.remote_supports_extensions);
    let mut q = PieceQueue::for_pieces(1);
    let a = peer.on_message(Message::Bitfield, 0, false, &mut q, true).unwrap();
    assert_eq!(a, Action::Send(vec![vec![0, 0, 0, 1, 2]]));
    let a = peer.on_message(Message::Unchoke, 0, false, &mut q, true).unwrap();
    assert_eq!(a, Action::Send(vec![vec![0, 0, 0, 13, 6, 0, 0, 0, 0, 0, 0, 0, 0, 0, 0, 0, 100]]));
    assert_eq!(peer.on_message(Message::Choke, 0, false, &mut q, true).unwrap(), Action::Wait);
    assert_eq!(
        peer.on_message(Message::Unchoke, 5, false, &mut q, true),
        Err(SessionError::Piece(PieceError::UnknownPiece(5)))
    );
    assert_eq!(
        peer.on_handshake(&build_handshake(&[6; 20], &[9; 20], false), false),
        Err(SessionError::Handshake(rusbit::HandshakeError::InfoHashMismatch))
    );
}

#[test]
fn metadata_exchange() {
    let info_bytes = b"d6:lengthi3e4:name1:x12:piece lengthi4e6:pieces20:aaaaaaaaaaaaaaaaaaaae".to_vec();
    let hash: [u8; 20] = Sha1::digest(&info_bytes).into();
    let mut peer = Peer::new(hash, [1; 20], None);
    let both = build_handshake(&hash, &[2; 20], true);
    peer.on_handshake(&both, true).unwrap();
    assert!(peer.remote_supports_extensions);
    let mut q = PieceQueue::for_pieces(0);
    let a = peer.on_message(Message::Bitfield, 0, true, &mut q, false).unwrap();
    let mut ext = b"\x14\x00".to_vec();
    ext.extend_from_slice(b"d1:md11:ut_metadatai20eee");
    let mut frame = (ext.len() as u32).to_be_bytes().to_vec();
    frame.extend_from_slice(&ext);
    assert_eq!(a, Action::Send(vec![frame]));
    assert_eq!(
        peer.on_message(Message::Unchoke, 0, true, &mut q, false),
        Err(SessionError::NoDescriptor)
    );
    let (_, remote_ext) = decode_bencode(b"d1:md11:ut_metadatai3eee").unwrap();
    let a = peer.on_message(Message::ExtendedHandshake(remote_ext), 0, true, &mut q, false).unwrap();
    let request = encode_bvalue(&decode_bencode(b"d8:msg_typei0e5:piecei0ee").unwrap().1);
    let mut body = vec![20u8, 3];
    body.extend_from_slice(&request);
    let mut frame = (body.len() as u32).to_be_bytes().to_vec();
    frame.extend_from_slice(&body);
    assert_eq!(a, Action::Send(vec![frame]));
    assert_eq!(peer.metadata_ext_id, Some(3));
    let (_, data_dict) = decode_bencode(b"d8:msg_typei1e5:piecei0ee").unwrap();
    let a = peer
        .on_message(Message::ReceiveMetaData { ext_msg_id: 20, dict: data_dict, payload: info_bytes.clone() }, 0, true, &mut q, false)
        .unwrap();
    assert_eq!(a, Action::MetadataReady);
    let info = peer.get_torrent_info().unwrap();
    assert_eq!(info.length, 3);
    assert_eq!(info.name, "x");
}

#[test]
fn metadata_with_wrong_hash_is_refused() {
    let info_bytes = b"d6:lengthi3e4:name1:x12:piece lengthi4e6:pieces20:aaaaaaaaaaaaaaaaaaaae".to_vec();
    let mut peer = Peer::new([0; 20], [1; 20], None);
    let mut q = PieceQueue::for_pieces(0);
    let (_, data_dict) = decode_bencode(b"d8:msg_typei1e5:piecei0ee").unwrap();
    assert_eq!(
        peer.on_message(Message::ReceiveMetaData { ext_msg_id: 20, dict: data_dict, payload: info_bytes }, 0, true, &mut q, false),
        Err(SessionError::InfoHashMismatch)
    );
    let (_, bad) = decode_bencode(b"d1:md11:ut_metadatai0eee").unwrap();
    assert_eq!(
        peer.on_message(Message::ExtendedHandshake(bad), 0, true, &mut q, false),
        Err(SessionError::NoMetadataId)
    );
}

#[test]
fn metadata_reject_and_malformed() {
    let mut peer = Peer::new([0; 20], [1; 20], None);
    let mut q = PieceQueue::for_pieces(0);
    let (_, reject) = decode_bencode(b"d8:msg_typei2e5:piecei0ee").unwrap();
    assert_eq!(
        peer.on_message(Message::ReceiveMetaData { ext_msg_id: 20, dict: reject, payload: vec![] }, 0, true, &mut q, false),
        Err(SessionError::MetadataRefused)
    );
    let (_, no_piece) = decode_bencode(b"d8:msg_typei1ee").unwrap();
    assert_eq!(
        peer.on_message(Message::ReceiveMetaData { ext_msg_id: 20, dict: no_piece, payload: vec![] }, 0, true, &mut q, false),
        Err(SessionError::Metadata(rusbit::MetainfoError::Missing(b"piece".to_vec())))
    );
    let (_, other) = decode_bencode(b"de").unwrap();
    assert_eq!(
        peer.on_message(Message::ReceiveMetaData { ext_msg_id: 7, dict: other, payload: vec![] }, 0, true, &mut q, false),
        Ok(Action::Wait)
    );
}

#[test]
fn failed_step_gives_its_piece_back() {
    let mut peer = Peer::new([0; 20], [1; 20], None);
    let mut q = PieceQueue::for_pieces(2);
    assert_eq!(q.get_next_piece(), Some(0));
    assert_eq!(peer.on_message(Message::Unchoke, 0, false, &mut q, true), Err(SessionError::NoDescriptor));
    assert!(!q.is_in_flight(0));
    assert_eq!(q.get_next_piece(), Some(1));
    assert_eq!(q.get_next_piece(), Some(0));
    assert_eq!(peer.on_message(Message::Choke, 0, false, &mut q, true), Ok(Action::Wait));
    assert!(q.is_in_flight(0));
}
