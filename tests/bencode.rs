use rusbit::{decode_bencode, encode_bvalue, insert_entry, BValue, BencodeError};

fn bytes(s: &str) -> BValue {
    BValue::ByteString(s.as_bytes().to_vec())
}

#[test]
fn test_decode_integer() {
    let input = b"i42e";
    let (consumed, value) = decode_bencode(input).unwrap();
    assert_eq!(consumed, input.len());
    assert_eq!(value, BValue::Integer(42));
}

#[test]
fn test_decode_negative_integer() {
    let input = b"i-13e";
    let (consumed, value) = decode_bencode(input).unwrap();
    assert_eq!(consumed, input.len());
    assert_eq!(value, BValue::Integer(-13));
}

#[test]
fn test_decode_integer_zero() {
    let input = b"i0e";
    let (consumed, value) = decode_bencode(input).unwrap();
    assert_eq!(consumed, input.len());
    assert_eq!(value, BValue::Integer(0));
}

#[test]
fn test_decode_string() {
    let input = b"5:hello";
    let (consumed, value) = decode_bencode(input).unwrap();
    assert_eq!(consumed, input.len());
    assert_eq!(value, BValue::ByteString("hello".as_bytes().to_vec()));
}

#[test]
fn test_decode_empty_string() {
    let input = b"0:";
    let (consumed, value) = decode_bencode(input).unwrap();
    assert_eq!(consumed, input.len());
    assert_eq!(value, BValue::ByteString("".as_bytes().to_vec()));
}

#[test]
fn test_decode_list() {
    let input = b"l4:spami42ee";
    let (consumed, value) = decode_bencode(input).unwrap();
    assert_eq!(consumed, input.len());
    assert_eq!(
        value,
        BValue::List(vec![BValue::ByteString("spam".as_bytes().to_vec()), BValue::Integer(42)])
    );
}

#[test]
fn test_decode_nested_list() {
    let input = b"l4:spaml3:eggi3eee";
    let (consumed, value) = decode_bencode(input).unwrap();
    assert_eq!(consumed, input.len());
    assert_eq!(
        value,
        BValue::List(vec![
            BValue::ByteString("spam".as_bytes().to_vec()),
            BValue::List(vec![
                BValue::ByteString("egg".as_bytes().to_vec()),
                BValue::Integer(3)
            ]),
        ])
    );
}

#[test]
fn test_decode_dict() {
    let input = b"d3:bar4:spam3:fooi42ee";
    let (consumed, value) = decode_bencode(input).unwrap();
    assert_eq!(consumed, input.len());
    let mut expected = Vec::new();
    insert_entry(&mut expected, b"bar".to_vec(), BValue::ByteString("spam".as_bytes().to_vec()));
    insert_entry(&mut expected, b"foo".to_vec(), BValue::Integer(42));
    assert_eq!(value, BValue::Dict(expected));
}

#[test]
fn test_decode_empty_dict() {
    let input = b"de";
    let (consumed, value) = decode_bencode(input).unwrap();
    assert_eq!(consumed, input.len());
    assert_eq!(value, BValue::Dict(Vec::new()));
}

#[test]
fn test_decode_dict_with_nested_list() {
    let input = b"d3:fool4:spami1ee3:bar4:eggse";
    let (consumed, value) = decode_bencode(input).unwrap();
    assert_eq!(consumed, input.len());
    let mut expected = Vec::new();
    insert_entry(
        &mut expected,
        b"foo".to_vec(),
        BValue::List(vec![BValue::ByteString("spam".as_bytes().to_vec()), BValue::Integer(1)]),
    );
    insert_entry(&mut expected, b"bar".to_vec(), BValue::ByteString("eggs".as_bytes().to_vec()));
    assert_eq!(value, BValue::Dict(expected));
}

#[test]
fn test_decode_integer_missing_e() {
    let input = b"i42";
    let result = decode_bencode(input);
    assert!(result.is_err());
}

#[test]
fn test_decode_leading_zeros() {
    let input = b"i0123e";
    let result = decode_bencode(input);
    assert!(result.is_err());
}

#[test]
fn test_decode_string_missing_colon() {
    let input = b"5hello";
    let result = decode_bencode(input);
    assert!(result.is_err());
}

#[test]
fn test_decode_list_unclosed() {
    let input = b"l4:spam";
    let result = decode_bencode(input);
    assert!(result.is_err());
}

#[test]
fn test_decode_dict_unclosed() {
    let input = b"d3:foo4:spam";
    let result = decode_bencode(input);
    assert!(result.is_err());
}

#[test]
fn test_decode_dict_key_not_string() {
    let input = b"di42e4:spame";
    let result = decode_bencode(input);
    assert!(result.is_err());
}

#[test]
fn test_decode_invalid_bencode() {
    let result = decode_bencode("d".as_bytes());
    assert!(result.is_err());
    let result = decode_bencode("4:ab".as_bytes());
    assert!(result.is_err());
    let result = decode_bencode("invalid".as_bytes());
    assert!(result.is_err());
}

#[test]
fn dict_scenario_round_trips_to_same_bytes() {
    let input = b"d3:bar4:spam3:fooi42ee";
    let (_, value) = decode_bencode(input).unwrap();
    assert_eq!(encode_bvalue(&value), input.to_vec());
}

#[test]
fn unsorted_keys_are_written_sorted() {
    let (_, value) = decode_bencode(b"d3:fooi1e3:bari2ee").unwrap();
    assert_eq!(encode_bvalue(&value), b"d3:bari2e3:fooi1ee".to_vec());
}

#[test]
fn repeated_key_keeps_last_value() {
    let (_, value) = decode_bencode(b"d1:ai1e1:ai2ee").unwrap();
    let mut expected = Vec::new();
    insert_entry(&mut expected, b"a".to_vec(), BValue::Integer(2));
    assert_eq!(value, BValue::Dict(expected));
}

#[test]
fn round_trip_of_nested_value() {
    let mut inner = Vec::new();
    insert_entry(&mut inner, b"z".to_vec(), BValue::Integer(i64::MIN));
    insert_entry(&mut inner, b"a".to_vec(), BValue::List(vec![bytes(""), BValue::Integer(i64::MAX)]));
    let v = BValue::List(vec![BValue::Dict(inner), bytes("xyz"), BValue::Integer(-7)]);
    let enc = encode_bvalue(&v);
    let mut with_tail = enc.clone();
    with_tail.extend_from_slice(b"trailing");
    let (n, back) = decode_bencode(&with_tail).unwrap();
    assert_eq!(n, enc.len());
    assert_eq!(back, v);
}

#[test]
fn integer_literal_boundaries() {
    assert_eq!(decode_bencode(b"i0e").unwrap(), (3, BValue::Integer(0)));
    assert_eq!(decode_bencode(b"i-1e").unwrap(), (4, BValue::Integer(-1)));
    assert_eq!(decode_bencode(b"i-0e"), Err(BencodeError::InvalidInteger(b"-0".to_vec())));
    assert_eq!(decode_bencode(b"i03e"), Err(BencodeError::InvalidInteger(b"03".to_vec())));
    assert_eq!(decode_bencode(b"i"), Err(BencodeError::InvalidFormat(0)));
    assert_eq!(
        decode_bencode(b"i9223372036854775807e").unwrap().1,
        BValue::Integer(i64::MAX)
    );
    assert_eq!(
        decode_bencode(b"i-9223372036854775808e").unwrap().1,
        BValue::Integer(i64::MIN)
    );
    assert!(matches!(
        decode_bencode(b"i9223372036854775808e"),
        Err(BencodeError::InvalidInteger(_))
    ));
    assert!(matches!(decode_bencode(b"ie"), Err(BencodeError::InvalidInteger(_))));
    assert!(matches!(decode_bencode(b"i+5e"), Err(BencodeError::InvalidInteger(_))));
}

#[test]
fn byte_string_boundaries() {
    assert_eq!(decode_bencode(b"0:").unwrap(), (2, BValue::ByteString(Vec::new())));
    assert_eq!(decode_bencode(b"5:abc"), Err(BencodeError::UnexpectedEnd));
    assert_eq!(decode_bencode(b"99999999999999999999999:a"), Err(BencodeError::UnexpectedEnd));
    assert_eq!(decode_bencode(b"3:abcdef").unwrap(), (5, bytes("abc")));
}

#[test]
fn error_variants_and_positions() {
    assert_eq!(decode_bencode(b""), Err(BencodeError::UnexpectedEnd));
    assert_eq!(decode_bencode(b"x"), Err(BencodeError::InvalidFormat(0)));
    assert_eq!(decode_bencode(b"l4:spam"), Err(BencodeError::InvalidFormat(7)));
    assert_eq!(decode_bencode(b"lxe"), Err(BencodeError::InvalidFormat(1)));
    assert_eq!(decode_bencode(b"di42e4:spame"), Err(BencodeError::InvalidFormat(1)));
    assert_eq!(decode_bencode(b"5hello"), Err(BencodeError::InvalidFormat(0)));
}

#[test]
fn encodes_each_shape() {
    assert_eq!(encode_bvalue(&BValue::Integer(-42)), b"i-42e".to_vec());
    assert_eq!(encode_bvalue(&BValue::Integer(0)), b"i0e".to_vec());
    assert_eq!(encode_bvalue(&bytes("spam")), b"4:spam".to_vec());
    assert_eq!(encode_bvalue(&BValue::List(vec![])), b"le".to_vec());
    assert_eq!(encode_bvalue(&BValue::Dict(vec![])), b"de".to_vec());
    assert_eq!(
        encode_bvalue(&BValue::ByteString(vec![b'x'; 12])),
        [b"12:".to_vec(), vec![b'x'; 12]].concat()
    );
}
