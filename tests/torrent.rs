use rusbit::{
    calculate_info_hash_from_struct, decode_bencode, get_bytestring, get_integer, insert_entry,
    lookup_bytestring, BValue, MetainfoError, Torrent, TorrentInfo,
};
use sha1::{Digest, Sha1};

fn info_dict(length: i64, piece_length: i64, pieces: Vec<u8>) -> Vec<(Vec<u8>, BValue)> {
    let mut d = Vec::new();
    insert_entry(&mut d, b"name".to_vec(), BValue::ByteString(b"hello.txt".to_vec()));
    insert_entry(&mut d, b"length".to_vec(), BValue::Integer(length));
    insert_entry(&mut d, b"piece length".to_vec(), BValue::Integer(piece_length));
    insert_entry(&mut d, b"pieces".to_vec(), BValue::ByteString(pieces));
    d
}

#[test]
fn info_hash_scenario() {
    let info = TorrentInfo::from_bvalue(&info_dict(12, 16384, vec![0u8; 20])).unwrap();
    let mut expected_bytes = b"d6:lengthi12e4:name9:hello.txt12:piece lengthi16384e6:pieces20:".to_vec();
    expected_bytes.extend_from_slice(&[0u8; 20]);
    expected_bytes.push(b'e');
    let expected: [u8; 20] = Sha1::digest(&expected_bytes).into();
    assert_eq!(calculate_info_hash_from_struct(&info), expected);
}

#[test]
fn metainfo_file_parses() {
    let mut file = b"d8:announce15:http://t.io/ann4:infod6:lengthi12e4:name9:hello.txt12:piece lengthi16384e6:pieces20:".to_vec();
    file.extend_from_slice(&[7u8; 20]);
    file.extend_from_slice(b"ee");
    let t = Torrent::from_bytes(&file).unwrap();
    assert_eq!(t.announce, "http://t.io/ann");
    assert_eq!(t.info.name, "hello.txt");
    assert_eq!(t.info.length, 12);
    assert_eq!(t.info.piece_length, 16384);
    assert_eq!(t.info.pieces, vec![[7u8; 20]]);
    let start = file.iter().position(|&b| b == b'4').unwrap() + 6;
    let expected: [u8; 20] = Sha1::digest(&file[start..file.len() - 1]).into();
    assert_eq!(t.info_hash, expected);
}

#[test]
fn descriptor_errors() {
    let mut d = info_dict(12, 16384, vec![0u8; 20]);
    d.retain(|(k, _)| k != b"name");
    assert_eq!(TorrentInfo::from_bvalue(&d).unwrap_err(), MetainfoError::Missing(b"name".to_vec()));
    let d = info_dict(12, 0, vec![0u8; 20]);
    assert_eq!(TorrentInfo::from_bvalue(&d).unwrap_err(), MetainfoError::BadPieceLength);
    let d = info_dict(12, 16384, vec![0u8; 19]);
    assert_eq!(TorrentInfo::from_bvalue(&d).unwrap_err(), MetainfoError::BadPieces);
    let d = info_dict(40000, 16384, vec![0u8; 40]);
    assert_eq!(TorrentInfo::from_bvalue(&d).unwrap_err(), MetainfoError::BadPieces);
    let d = info_dict(-1, 16384, vec![]);
    assert_eq!(TorrentInfo::from_bvalue(&d).unwrap_err(), MetainfoError::OutOfRange(b"length".to_vec()));
    assert_eq!(
        Torrent::from_bvalue(&BValue::Integer(1)).unwrap_err(),
        MetainfoError::NotADictionary
    );
    assert!(matches!(Torrent::from_bytes(b"d"), Err(MetainfoError::Decode(_))));
}

#[test]
fn field_lookups() {
    let mut d = info_dict(12, 16384, vec![0u8; 20]);
    insert_entry(&mut d, b"bad".to_vec(), BValue::ByteString(vec![0xff, 0xfe]));
    assert_eq!(lookup_bytestring(&d, "pieces").unwrap(), &vec![0u8; 20]);
    assert_eq!(get_bytestring(&d, "name").unwrap(), "hello.txt");
    assert_eq!(get_integer(&d, "length").unwrap(), 12);
    assert_eq!(get_integer(&d, "name").unwrap_err(), MetainfoError::WrongType(b"name".to_vec()));
    assert_eq!(get_bytestring(&d, "bad").unwrap_err(), MetainfoError::NotText(b"bad".to_vec()));
    assert_eq!(lookup_bytestring(&d, "nope").unwrap_err(), MetainfoError::Missing(b"nope".to_vec()));
}

#[test]
fn piece_sizes_and_offsets() {
    let info = TorrentInfo::from_bvalue(&info_dict(40000, 16384, vec![0u8; 60])).unwrap();
    assert_eq!(info.piece_size(0), 16384);
    assert_eq!(info.piece_size(1), 16384);
    assert_eq!(info.piece_size(2), 40000 - 2 * 16384);
    assert_eq!(info.write_offset(2, true), 32768);
    assert_eq!(info.write_offset(2, false), 0);
    let exact = TorrentInfo::from_bvalue(&info_dict(32768, 16384, vec![0u8; 40])).unwrap();
    assert_eq!(exact.piece_size(1), 16384);
}

#[test]
fn decoded_info_dict_round_trip() {
    let (_, v) = decode_bencode(b"d6:lengthi1e4:name1:x12:piece lengthi1e6:pieces0:e").unwrap();
    match v {
        BValue::Dict(d) => assert_eq!(TorrentInfo::from_bvalue(&d).unwrap_err(), MetainfoError::BadPieces),
        _ => panic!("not a dictionary"),
    }
}
