use rusbit::{
    decode_magnet, decode_magnet_parameters, encode_percent, info_hash_from_hex, url_decode, url_encode_bytes,
    MagnetError,
};

#[test]
fn test_decode_magnet() {
    let input = "magnet:?xt=urn:btih:c5fb9894bdaba464811b088d806bdd611ba490a&dn=magnet1.gif&tr=http%3A%2F%2Fbittorrent-test-tracker.codecrafters.io%2Fannounce";
    let res = decode_magnet(input).unwrap();
    let info_hash = res.get("info_hash").unwrap();
    let announce = res.get("announce").unwrap();
    let file_name = res.get("file_name").unwrap();

    assert_eq!(info_hash, "c5fb9894bdaba464811b088d806bdd611ba490a");
    assert_eq!(announce, "http://bittorrent-test-tracker.codecrafters.io/announce");
    assert_eq!(file_name, "magnet1.gif");
}

#[test]
fn test_magnet_link_parsing() {
    let magnet = "magnet:?xt=urn:btih:1234567890123456789012345678901234567890&dn=test&tr=http://tracker.example.com/announce";
    let result = decode_magnet(magnet);
    assert!(result.is_ok());
    let magnet_link = result.unwrap();
    assert_eq!(magnet_link.get("announce").unwrap(), "http://tracker.example.com/announce");
    assert_eq!(magnet_link.get("file_name").unwrap(), "test");
}

#[test]
fn test_encode_percent() {
    let input = vec![0x12, 0x34, 0x56];
    let result = encode_percent(&input);
    assert_eq!(result, "%12%34%56");
}

#[test]
fn percent_encoding_of_all_bytes() {
    assert_eq!(encode_percent(b"a~"), "%61%7E");
    assert_eq!(encode_percent(&[]), "");
}

#[test]
fn percent_encoding_keeps_unreserved() {
    assert_eq!(url_encode_bytes(&[0x12, 0x34, 0x56]), "%124V");
    assert_eq!(url_encode_bytes(b"aZ09-._~"), "aZ09-._~");
    assert_eq!(url_encode_bytes(&[0x00, 0xff, b' ', b'/']), "%00%FF%20%2F");
    assert_eq!(url_encode_bytes(&[]), "");
}

#[test]
fn url_decode_cases() {
    assert_eq!(url_decode("http%3A%2F%2Fa.b%2fc"), "http://a.b/c");
    assert_eq!(url_decode("%zz%41"), "%zzA");
    assert_eq!(url_decode("abc%4"), "abc%4");
    assert_eq!(url_decode("%"), "%");
    assert_eq!(url_decode("plain"), "plain");
}

#[test]
fn magnet_errors() {
    assert_eq!(decode_magnet("").unwrap_err(), MagnetError::UnexpectedEnd);
    assert_eq!(decode_magnet("magnet:xt=1").unwrap_err(), MagnetError::MissingQuery);
    assert_eq!(decode_magnet("xt=1").unwrap_err(), MagnetError::MissingQuery);
    assert_eq!(decode_magnet("?xt=1").unwrap_err(), MagnetError::NotBtih);
    assert_eq!(decode_magnet("?dn").unwrap_err(), MagnetError::MissingValue);
}

#[test]
fn magnet_later_parameter_wins_and_others_kept() {
    let m = decode_magnet("?dn=a&&dn=b&x.pe=1.2.3.4:5").unwrap();
    assert_eq!(m.get("file_name").unwrap(), "b");
    assert_eq!(m.get("x.pe").unwrap(), "1.2.3.4:5");
    assert!(m.get("announce").is_none());
}

#[test]
fn magnet_parameters_split() {
    let ps = decode_magnet_parameters("a=1&&b=c=d").unwrap();
    assert_eq!(ps, vec![("a".to_string(), "1".to_string()), ("b".to_string(), "c=d".to_string())]);
}

#[test]
fn info_hash_hex() {
    let h = info_hash_from_hex("000102030405060708090a0B0c0D0e0F10111213").unwrap();
    let expected: Vec<u8> = (0u8..20).collect();
    assert_eq!(h.to_vec(), expected);
    assert!(info_hash_from_hex("0001").is_none());
    assert!(info_hash_from_hex("zz0102030405060708090a0b0c0d0e0f10111213").is_none());
}
