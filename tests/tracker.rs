use rusbit::{decode_bencode, parse_peers_from_bvalue, peers_from_response, Config, TrackerError};

#[test]
fn compact_peers() {
    let mut body = b"d8:intervali900e5:peers12:".to_vec();
    body.extend_from_slice(&[192, 168, 1, 1, 0x1a, 0xe1, 10, 0, 0, 255, 0, 80]);
    body.push(b'e');
    let peers = peers_from_response(&body).unwrap();
    assert_eq!(peers, vec![("192.168.1.1".to_string(), 6881), ("10.0.0.255".to_string(), 80)]);
}

#[test]
fn listed_peers_skip_incomplete_entries() {
    let (_, v) = decode_bencode(b"d5:peersld2:ip3:1.24:porti7eed2:ip1:xeee").unwrap();
    assert_eq!(parse_peers_from_bvalue(&v).unwrap(), vec![("1.2".to_string(), 7)]);
}

#[test]
fn tracker_errors() {
    assert_eq!(
        peers_from_response(b"d14:failure reason4:nopee").unwrap_err(),
        TrackerError::Failure("nope".to_string())
    );
    assert_eq!(peers_from_response(b"de").unwrap_err(), TrackerError::MissingPeers);
    assert_eq!(peers_from_response(b"d5:peers5:abcdee").unwrap_err(), TrackerError::BadCompactPeers);
    assert_eq!(peers_from_response(b"d5:peersi1ee").unwrap_err(), TrackerError::BadPeers);
    assert_eq!(peers_from_response(b"i1e").unwrap_err(), TrackerError::NotADictionary);
    assert!(matches!(peers_from_response(b"d"), Err(TrackerError::Decode(_))));
}

#[test]
fn default_config() {
    let c = Config::default();
    assert_eq!(c.peer_id_prefix, "-RB0001-");
    assert_eq!(c.listen_port, 6881);
    assert_eq!(c.max_connections, 50);
    assert_eq!(c.piece_timeout, 30);
    assert_eq!(c.request_timeout, 10);
    assert_eq!(c.max_retries, 3);
    assert_eq!(c.download_directory, ".");
}
