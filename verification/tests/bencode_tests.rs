use torrent_client::bencode::Bencode;
use torrent_client::decoder::{decode_bencoded_value, decode_complete, DecodeError};
use torrent_client::encoder::{encode_dict, encode_list, encode_number, encode_string, encode_value};

fn benc_eq(a: &Bencode, b: &Bencode) -> bool {
    match (a, b) {
        (Bencode::Int(x), Bencode::Int(y)) => x == y,
        (Bencode::Bytes(x), Bencode::Bytes(y)) => x == y,
        (Bencode::List(xs), Bencode::List(ys)) => {
            xs.len() == ys.len() && xs.iter().zip(ys.iter()).all(|(x, y)| benc_eq(x, y))
        }
        (Bencode::Dict(xs), Bencode::Dict(ys)) => {
            xs.len() == ys.len()
                && xs
                    .iter()
                    .zip(ys.iter())
                    .all(|(x, y)| x.0 == y.0 && benc_eq(&x.1, &y.1))
        }
        _ => false,
    }
}

#[test]
fn test_encode_string() {
    let non_utf8 = encode_string(b"hello\x80");
    assert_eq!(non_utf8, b"6:hello\x80".to_vec(), "Test with non utf8 string");
    let utf8 = encode_string(b"hello");
    assert_eq!(utf8, b"5:hello".to_vec(), "Test with utf8 string");
}

#[test]
fn test_encode_number() {
    assert_eq!(encode_number(52), b"i52e".to_vec());
}

#[test]
fn test_encode_list() {
    let given = Bencode::List(vec![Bencode::Bytes(b"test".to_vec()), Bencode::Int(104)]);
    assert_eq!(encode_value(&given), b"l4:testi104ee".to_vec(), "simple list");
}

#[test]
fn test_encode_nested_list() {
    let given = Bencode::List(vec![
        Bencode::Bytes(b"test".to_vec()),
        Bencode::Int(104),
        Bencode::List(vec![Bencode::Int(23), Bencode::Bytes(b"nested".to_vec())]),
        Bencode::Int(203),
    ]);
    assert_eq!(
        encode_value(&given),
        b"l4:testi104eli23e6:nestedei203ee".to_vec(),
        "simple list"
    );
}

#[test]
fn test_encode_nested_dict() {
    let inner = Bencode::List(vec![
        Bencode::Bytes(b"test".to_vec()),
        Bencode::Int(104),
        Bencode::List(vec![Bencode::Int(23), Bencode::Bytes(b"nested".to_vec())]),
        Bencode::Int(203),
    ]);
    let given = Bencode::Dict(vec![(b"testkey".to_vec(), inner)]);
    assert_eq!(
        encode_value(&given),
        b"d7:testkeyl4:testi104eli23e6:nestedei203eee".to_vec(),
        "simple list"
    );
}

#[test]
fn decoder_test_decode_list_empty() {
    let encoded_value = b"le";
    let expected = Bencode::List(vec![]);
    let (result, consumed) = decode_bencoded_value(encoded_value).expect("Test failed");
    assert!(benc_eq(&result, &expected));
    assert_eq!(consumed, encoded_value.len());
}

#[test]
fn decoder_test_decode_list_basic() {
    let encoded_value = b"l5:helloi52ee";
    let expected = Bencode::List(vec![Bencode::Bytes(b"hello".to_vec()), Bencode::Int(52)]);
    let (result, consumed) = decode_bencoded_value(encoded_value).expect("Test failed");
    assert!(benc_eq(&result, &expected));
    assert_eq!(consumed, encoded_value.len());
}

#[test]
fn decoder_test_decode_list_nested() {
    let encoded_value = b"l5:helloi52el5:helloi52eei52ee";
    let expected = Bencode::List(vec![
        Bencode::Bytes(b"hello".to_vec()),
        Bencode::Int(52),
        Bencode::List(vec![Bencode::Bytes(b"hello".to_vec()), Bencode::Int(52)]),
        Bencode::Int(52),
    ]);
    let (result, consumed) = decode_bencoded_value(encoded_value).expect("Test failed");
    assert!(benc_eq(&result, &expected));
    assert_eq!(consumed, encoded_value.len());
}

#[test]
fn decoder_test_decode_dict_nested() {
    let encoded_value = b"d4:testd7:in_testl5:helloi52el5:helloi52eei52eeee";
    let expected = Bencode::Dict(vec![(
        b"test".to_vec(),
        Bencode::Dict(vec![(
            b"in_test".to_vec(),
            Bencode::List(vec![
                Bencode::Bytes(b"hello".to_vec()),
                Bencode::Int(52),
                Bencode::List(vec![Bencode::Bytes(b"hello".to_vec()), Bencode::Int(52)]),
                Bencode::Int(52),
            ]),
        )]),
    )]);
    let (result, consumed) = decode_bencoded_value(encoded_value).expect("Test failed");
    assert!(benc_eq(&result, &expected));
    assert_eq!(consumed, encoded_value.len());
}

#[test]
fn test_decode_dict_with_binary_data() {
    // The dictionary's keys stand in ascending byte order, as the grammar
    // demands; the binary value survives the trip untouched.
    let encoded_value = b"ld11:binary_data11:hello\x80world4:name7:exampleei52ee";
    let expected = Bencode::List(vec![
        Bencode::Dict(vec![
            (b"binary_data".to_vec(), Bencode::Bytes(b"hello\x80world".to_vec())),
            (b"name".to_vec(), Bencode::Bytes(b"example".to_vec())),
        ]),
        Bencode::Int(52),
    ]);
    let (result, consumed) = decode_bencoded_value(encoded_value).expect("Test failed");
    assert!(benc_eq(&result, &expected));
    assert_eq!(consumed, encoded_value.len());
    // With the keys the other way round the dictionary is rejected.
    let misordered = b"ld4:name7:example11:binary_data11:hello\x80worldei52ee";
    assert!(matches!(
        decode_bencoded_value(misordered),
        Err(DecodeError::NonAscendingKeys)
    ));
}

#[test]
fn bencoded_parser_test_decode_list_empty() {
    let (result, consumed) = decode_bencoded_value(b"le").expect("Test failed");
    assert!(benc_eq(&result, &Bencode::List(vec![])));
    assert_eq!(consumed, 2);
}

#[test]
fn bencoded_parser_test_decode_list_basic() {
    let encoded_value = b"l5:helloi52ee";
    let expected = Bencode::List(vec![Bencode::Bytes(b"hello".to_vec()), Bencode::Int(52)]);
    let (result, consumed) = decode_bencoded_value(encoded_value).expect("Test failed");
    assert!(benc_eq(&result, &expected));
    assert_eq!(consumed, encoded_value.len());
}

#[test]
fn bencoded_parser_test_decode_list_nested() {
    let encoded_value = b"l5:helloi52el5:helloi52eei52ee";
    let expected = Bencode::List(vec![
        Bencode::Bytes(b"hello".to_vec()),
        Bencode::Int(52),
        Bencode::List(vec![Bencode::Bytes(b"hello".to_vec()), Bencode::Int(52)]),
        Bencode::Int(52),
    ]);
    let (result, consumed) = decode_bencoded_value(encoded_value).expect("Test failed");
    assert!(benc_eq(&result, &expected));
    assert_eq!(consumed, encoded_value.len());
}

#[test]
fn bencoded_parser_test_decode_dict_nested() {
    let encoded_value = b"d4:testd7:in_testl5:helloi52el5:helloi52eei52eeee";
    let (result, consumed) = decode_bencoded_value(encoded_value).expect("Test failed");
    assert_eq!(consumed, encoded_value.len());
    // Re-encoding the decoded tree gives back the canonical input bytes.
    assert_eq!(encode_value(&result), encoded_value.to_vec());
}

#[test]
fn decode_integers() {
    let (v, consumed) = decode_bencoded_value(b"i42e").unwrap();
    assert!(benc_eq(&v, &Bencode::Int(42)));
    assert_eq!(consumed, 4);
    let (v, _) = decode_bencoded_value(b"i-7e").unwrap();
    assert!(benc_eq(&v, &Bencode::Int(-7)));
    assert!(decode_bencoded_value(b"i00e").is_err());
    assert!(decode_bencoded_value(b"i-0e").is_err());
    let (v, _) = decode_bencoded_value(b"i0e").unwrap();
    assert!(benc_eq(&v, &Bencode::Int(0)));
    let (v, _) = decode_bencoded_value(b"i9223372036854775807e").unwrap();
    assert!(benc_eq(&v, &Bencode::Int(i64::MAX)));
    let (v, _) = decode_bencoded_value(b"i-9223372036854775808e").unwrap();
    assert!(benc_eq(&v, &Bencode::Int(i64::MIN)));
    assert!(decode_bencoded_value(b"i9223372036854775808e").is_err());
    assert!(decode_bencoded_value(b"i-9223372036854775809e").is_err());
}

#[test]
fn decode_byte_strings() {
    let (v, consumed) = decode_bencoded_value(b"5:hello").unwrap();
    assert!(benc_eq(&v, &Bencode::Bytes(b"hello".to_vec())));
    assert_eq!(consumed, 7);
    assert!(matches!(
        decode_bencoded_value(b"6:hello"),
        Err(DecodeError::Truncated)
    ));
    let (v, consumed) = decode_bencoded_value(b"0:") .unwrap();
    assert!(benc_eq(&v, &Bencode::Bytes(vec![])));
    assert_eq!(consumed, 2);
    assert!(decode_bencoded_value(b"05:hello").is_err());
}

#[test]
fn decode_consumes_minimum_prefix() {
    let (v, consumed) = decode_bencoded_value(b"i42etrailing").unwrap();
    assert!(benc_eq(&v, &Bencode::Int(42)));
    assert_eq!(consumed, 4);
    assert!(matches!(
        decode_complete(b"i42etrailing"),
        Err(DecodeError::TrailingData)
    ));
    assert!(decode_complete(b"i42e").is_ok());
}

#[test]
fn list_round_trip() {
    let encoded = b"l4:spami7ee";
    let (v, consumed) = decode_bencoded_value(encoded).unwrap();
    assert!(benc_eq(
        &v,
        &Bencode::List(vec![Bencode::Bytes(b"spam".to_vec()), Bencode::Int(7)])
    ));
    assert_eq!(consumed, encoded.len());
    assert_eq!(encode_value(&v), encoded.to_vec());
}

#[test]
fn encode_reorders_dict_keys() {
    let given = Bencode::Dict(vec![
        (b"b".to_vec(), Bencode::Int(2)),
        (b"a".to_vec(), Bencode::Int(1)),
    ]);
    assert_eq!(encode_value(&given), b"d1:ai1e1:bi2ee".to_vec());
    let sorted = Bencode::Dict(vec![
        (b"a".to_vec(), Bencode::Int(1)),
        (b"b".to_vec(), Bencode::Int(2)),
    ]);
    assert_eq!(encode_dict(match &sorted {
        Bencode::Dict(es) => es,
        _ => unreachable!(),
    }), b"d1:ai1e1:bi2ee".to_vec());
}

#[test]
fn encode_list_helper_matches_value_encoder() {
    let items = vec![Bencode::Int(1), Bencode::Bytes(b"x".to_vec())];
    assert_eq!(encode_list(&items), b"li1e1:xe".to_vec());
}

#[test]
fn decode_rejects_malformed_input() {
    assert!(matches!(decode_bencoded_value(b""), Err(DecodeError::Truncated)));
    assert!(matches!(decode_bencoded_value(b"x"), Err(DecodeError::UnknownTag)));
    assert!(matches!(decode_bencoded_value(b"ie"), Err(DecodeError::MalformedInteger)));
    assert!(matches!(decode_bencoded_value(b"i12"), Err(DecodeError::Truncated)));
    assert!(matches!(decode_bencoded_value(b"l"), Err(DecodeError::Truncated)));
    assert!(matches!(decode_bencoded_value(b"d1:a"), Err(DecodeError::Truncated)));
    assert!(matches!(
        decode_bencoded_value(b"d1:bi1e1:ai2ee"),
        Err(DecodeError::NonAscendingKeys)
    ));
    assert!(matches!(
        decode_bencoded_value(b"d1:ai1e1:ai2ee"),
        Err(DecodeError::NonAscendingKeys)
    ));
}
