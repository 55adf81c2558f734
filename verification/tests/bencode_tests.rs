use bittorrent::bencode::{
    decode_bencoded_value, decode_complete, encode_bencoded_value, BenDecodeErrors, BencodeValue,
};

fn decode_all(input: &[u8]) -> BencodeValue {
    decode_complete(&input.to_vec()).expect("expected a canonical value")
}

#[test]
fn decodes_byte_string() {
    let v = decode_all(b"5:hello");
    assert_eq!(v, BencodeValue::Bytes(b"hello".to_vec()));
}

#[test]
fn decodes_negative_integer() {
    let v = decode_all(b"i-42e");
    assert_eq!(v, BencodeValue::Int(-42));
}

#[test]
fn decodes_list() {
    let v = decode_all(b"l4:spami7ee");
    assert_eq!(
        v,
        BencodeValue::List(vec![
            BencodeValue::Bytes(b"spam".to_vec()),
            BencodeValue::Int(7),
        ])
    );
}

#[test]
fn decodes_dictionary() {
    let v = decode_all(b"d3:cow3:moo4:spaml1:a1:bee");
    assert_eq!(
        v,
        BencodeValue::Dict(vec![
            (b"cow".to_vec(), BencodeValue::Bytes(b"moo".to_vec())),
            (
                b"spam".to_vec(),
                BencodeValue::List(vec![
                    BencodeValue::Bytes(b"a".to_vec()),
                    BencodeValue::Bytes(b"b".to_vec()),
                ])
            ),
        ])
    );
}

#[test]
fn rejects_negative_zero() {
    assert!(decode_complete(&b"i-0e".to_vec()).is_err());
}

#[test]
fn rejects_padded_integer() {
    assert!(decode_complete(&b"i03e".to_vec()).is_err());
}

#[test]
fn rejects_trailing_garbage_on_full_consumption() {
    // A prefix decode stops after `2:ab`; a caller that claims full
    // consumption must see an error instead.
    let input = b"2:abXYZ".to_vec();
    let (v, end) = decode_bencoded_value(&input).unwrap();
    assert_eq!(v, BencodeValue::Bytes(b"ab".to_vec()));
    assert_eq!(end, 4);
    assert!(decode_complete(&input).is_err());
}

#[test]
fn rejects_unterminated_containers() {
    assert_eq!(
        decode_complete(&b"l4:spam".to_vec()),
        Err(BenDecodeErrors::TruncatedInput)
    );
    assert_eq!(
        decode_complete(&b"d3:cow3:moo".to_vec()),
        Err(BenDecodeErrors::TruncatedInput)
    );
}

#[test]
fn rejects_truncated_string() {
    assert_eq!(
        decode_complete(&b"10:abc".to_vec()),
        Err(BenDecodeErrors::TruncatedInput)
    );
}

#[test]
fn rejects_padded_string_length() {
    assert_eq!(
        decode_complete(&b"05:hello".to_vec()),
        Err(BenDecodeErrors::InvalidStringLength)
    );
}

#[test]
fn rejects_unsorted_dictionary_keys() {
    assert_eq!(
        decode_complete(&b"d4:spam1:a3:cow1:be".to_vec()),
        Err(BenDecodeErrors::UnsortedKeys)
    );
}

#[test]
fn rejects_duplicate_dictionary_keys() {
    assert_eq!(
        decode_complete(&b"d3:cow1:a3:cow1:be".to_vec()),
        Err(BenDecodeErrors::UnsortedKeys)
    );
}

#[test]
fn rejects_missing_dictionary_value() {
    assert_eq!(
        decode_complete(&b"d3:cowe".to_vec()),
        Err(BenDecodeErrors::MissingDictValue)
    );
}

#[test]
fn rejects_unexpected_first_byte() {
    assert_eq!(
        decode_complete(&b"x".to_vec()),
        Err(BenDecodeErrors::UnexpectedByte)
    );
    assert_eq!(
        decode_complete(&b"e".to_vec()),
        Err(BenDecodeErrors::UnexpectedByte)
    );
}

#[test]
fn rejects_empty_input() {
    assert_eq!(
        decode_complete(&Vec::new()),
        Err(BenDecodeErrors::TruncatedInput)
    );
}

#[test]
fn rejects_integer_out_of_range() {
    assert!(decode_complete(&b"i9223372036854775808e".to_vec()).is_err());
    assert!(decode_complete(&b"i-9223372036854775809e".to_vec()).is_err());
}

#[test]
fn decodes_integer_bounds() {
    assert_eq!(
        decode_all(b"i9223372036854775807e"),
        BencodeValue::Int(i64::MAX)
    );
    assert_eq!(
        decode_all(b"i-9223372036854775808e"),
        BencodeValue::Int(i64::MIN)
    );
    assert_eq!(decode_all(b"i0e"), BencodeValue::Int(0));
}

#[test]
fn encode_after_decode_is_identity() {
    // For canonical inputs, re-encoding the decoded value gives the input
    // back, byte for byte.
    let samples: Vec<&[u8]> = vec![
        b"5:hello",
        b"i-42e",
        b"i0e",
        b"l4:spami7ee",
        b"d3:cow3:moo4:spaml1:a1:bee",
        b"de",
        b"le",
        b"0:",
        b"d8:announce3:url4:infod6:lengthi1eee",
    ];
    for b in samples {
        let v = decode_complete(&b.to_vec()).unwrap();
        assert_eq!(encode_bencoded_value(&v), b.to_vec());
    }
}

#[test]
fn decode_after_encode_is_identity() {
    // For structurally valid values, decoding the encoding gives the value
    // back.
    let values = vec![
        BencodeValue::Int(-7),
        BencodeValue::Bytes(vec![0, 255, 10, 58]),
        BencodeValue::List(vec![
            BencodeValue::Int(1),
            BencodeValue::List(vec![]),
            BencodeValue::Bytes(b"x".to_vec()),
        ]),
        BencodeValue::Dict(vec![
            (b"a".to_vec(), BencodeValue::Int(1)),
            (b"b".to_vec(), BencodeValue::Dict(vec![])),
        ]),
    ];
    for v in values {
        let encoded = encode_bencoded_value(&v);
        let decoded = decode_complete(&encoded).unwrap();
        assert_eq!(decoded, v);
    }
}

#[test]
fn binary_strings_survive_round_trips() {
    // Bencode strings are raw bytes, not UTF-8.
    let v = BencodeValue::Bytes(vec![0xff, 0x00, 0xe9, 0x80]);
    let encoded = encode_bencoded_value(&v);
    assert_eq!(encoded, b"4:\xff\x00\xe9\x80".to_vec());
    assert_eq!(decode_complete(&encoded).unwrap(), v);
}
