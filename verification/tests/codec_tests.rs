use query_relay::abi::AbiType;
use query_relay::abi::Token;
use query_relay::codec::decode;
use query_relay::codec::encode;
use query_relay::codec::uint_word;
use query_relay::codec::EncodeError;

fn enc(tokens: &Vec<Token>) -> Vec<u8> {
    encode(tokens).expect("encoding well-formed tokens succeeds")
}

#[test]
fn round_trip_static_kinds() {
    let tokens = vec![
        uint_word(0xdeadbeef),
        Token::Bool(true),
        Token::Bool(false),
        Token::Address(vec![7u8; 20]),
        Token::FixedBytes(vec![1, 2, 3, 4]),
    ];
    let types = vec![
        AbiType::Uint(64),
        AbiType::Bool,
        AbiType::Bool,
        AbiType::Address,
        AbiType::FixedBytes(4),
    ];
    let bytes = enc(&tokens);
    assert_eq!(decode(&types, &bytes).unwrap(), tokens);
}

#[test]
fn round_trip_dynamic_kinds() {
    let tokens = vec![
        Token::Bytes(b"hello".to_vec()),
        Token::Text(b"world, wide".to_vec()),
        Token::Bytes(Vec::new()),
        Token::Text(Vec::new()),
    ];
    let types = vec![AbiType::Bytes, AbiType::Text, AbiType::Bytes, AbiType::Text];
    let bytes = enc(&tokens);
    assert_eq!(decode(&types, &bytes).unwrap(), tokens);
}

#[test]
fn round_trip_mixed() {
    let tokens = vec![
        Token::FixedBytes(vec![0xab; 32]),
        Token::Bytes(vec![1, 2, 3, 4, 5, 6, 7, 8, 9]),
        Token::Text(b"a string longer than thirty-two bytes, for two padding blocks".to_vec()),
        uint_word(1),
    ];
    let types = vec![AbiType::FixedBytes(32), AbiType::Bytes, AbiType::Text, AbiType::Uint(256)];
    let bytes = enc(&tokens);
    assert_eq!(decode(&types, &bytes).unwrap(), tokens);
}

#[test]
fn round_trip_empty_tuple() {
    let tokens: Vec<Token> = Vec::new();
    let types: Vec<AbiType> = Vec::new();
    let bytes = enc(&tokens);
    assert_eq!(bytes.len(), 0);
    assert_eq!(decode(&types, &bytes).unwrap(), tokens);
}

#[test]
fn exact_layout_uint() {
    let bytes = enc(&vec![uint_word(1)]);
    let mut expected = vec![0u8; 32];
    expected[31] = 1;
    assert_eq!(bytes, expected);
}

#[test]
fn exact_layout_fixed16_and_string() {
    // head: 16 bytes right-padded to a word; offset word 64;
    // tail: length word 8, then "file-123" zero-padded to 32 bytes.
    let bytes = enc(&vec![
        Token::FixedBytes(vec![0u8; 16]),
        Token::Text(b"file-123".to_vec()),
    ]);
    assert_eq!(bytes.len(), 128);
    let mut expected = vec![0u8; 128];
    expected[63] = 64;
    expected[95] = 8;
    expected[96..104].copy_from_slice(b"file-123");
    assert_eq!(bytes, expected);
}

#[test]
fn exact_layout_bool_address() {
    let bytes = enc(&vec![Token::Bool(true), Token::Address(vec![0x11; 20])]);
    let mut expected = vec![0u8; 64];
    expected[31] = 1;
    for i in 44..64 {
        expected[i] = 0x11;
    }
    assert_eq!(bytes, expected);
}

#[test]
fn decode_rejects_truncated() {
    let tokens = vec![Token::Bytes(b"hello".to_vec())];
    let types = vec![AbiType::Bytes];
    let mut bytes = enc(&tokens);
    bytes.pop();
    assert!(decode(&types, &bytes).is_err());
}

#[test]
fn decode_rejects_trailing_garbage() {
    let tokens = vec![uint_word(5)];
    let types = vec![AbiType::Uint(64)];
    let mut bytes = enc(&tokens);
    bytes.push(0);
    assert!(decode(&types, &bytes).is_err());
}

#[test]
fn decode_rejects_wrong_arity() {
    let tokens = vec![uint_word(5), uint_word(6)];
    let bytes = enc(&tokens);
    assert!(decode(&vec![AbiType::Uint(64)], &bytes).is_err());
    assert!(
        decode(&vec![AbiType::Uint(64), AbiType::Uint(64), AbiType::Uint(64)], &bytes).is_err()
    );
}

#[test]
fn decode_rejects_uint_wider_than_type() {
    // value 256 does not fit in eight bits
    let bytes = enc(&vec![uint_word(256)]);
    assert!(decode(&vec![AbiType::Uint(8)], &bytes).is_err());
    assert!(decode(&vec![AbiType::Uint(16)], &bytes).is_ok());
}

#[test]
fn decode_rejects_noncanonical_bool() {
    let mut bytes = vec![0u8; 32];
    bytes[31] = 2;
    assert!(decode(&vec![AbiType::Bool], &bytes).is_err());
    bytes[31] = 1;
    assert_eq!(decode(&vec![AbiType::Bool], &bytes).unwrap(), vec![Token::Bool(true)]);
}

#[test]
fn decode_rejects_dirty_address_padding() {
    let mut bytes = enc(&vec![Token::Address(vec![9u8; 20])]);
    bytes[0] = 1;
    assert!(decode(&vec![AbiType::Address], &bytes).is_err());
}

#[test]
fn decode_rejects_dirty_fixed_bytes_padding() {
    let mut bytes = enc(&vec![Token::FixedBytes(vec![9u8; 4])]);
    bytes[31] = 1;
    assert!(decode(&vec![AbiType::FixedBytes(4)], &bytes).is_err());
}

#[test]
fn decode_rejects_dirty_tail_padding() {
    let tokens = vec![Token::Bytes(b"xyz".to_vec())];
    let types = vec![AbiType::Bytes];
    let mut bytes = enc(&tokens);
    let last = bytes.len() - 1;
    bytes[last] = 0xff;
    assert!(decode(&types, &bytes).is_err());
}

#[test]
fn decode_rejects_tampered_offset() {
    let tokens = vec![Token::Bytes(b"abc".to_vec()), Token::Text(b"def".to_vec())];
    let types = vec![AbiType::Bytes, AbiType::Text];
    let mut bytes = enc(&tokens);
    // first head word holds offset 64; point it at the second tail instead
    bytes[31] = 96;
    assert!(decode(&types, &bytes).is_err());
}

#[test]
fn decode_rejects_kind_confusion() {
    // a bytes32 word is not accepted as a dynamic head, nor the reverse
    let stat = enc(&vec![Token::FixedBytes(vec![0xaa; 32])]);
    assert!(decode(&vec![AbiType::Bytes], &stat).is_err());
    let dynb = enc(&vec![Token::Bytes(vec![0xaa; 32])]);
    assert!(decode(&vec![AbiType::FixedBytes(32)], &dynb).is_err());
}

#[test]
fn encode_rejects_invalid_widths() {
    assert_eq!(
        encode(&vec![Token::Address(vec![1, 2, 3])]),
        Err(EncodeError::InvalidToken)
    );
    assert_eq!(
        encode(&vec![Token::Uint(vec![0u8; 16])]),
        Err(EncodeError::InvalidToken)
    );
    assert_eq!(
        encode(&vec![Token::FixedBytes(vec![0u8; 33])]),
        Err(EncodeError::InvalidToken)
    );
    assert_eq!(
        encode(&vec![Token::FixedBytes(Vec::new())]),
        Err(EncodeError::InvalidToken)
    );
}

#[test]
fn decode_rejects_invalid_type_lists() {
    let bytes = vec![0u8; 32];
    assert!(decode(&vec![AbiType::Uint(7)], &bytes).is_err());
    assert!(decode(&vec![AbiType::Uint(512)], &bytes).is_err());
    assert!(decode(&vec![AbiType::FixedBytes(0)], &bytes).is_err());
    assert!(decode(&vec![AbiType::FixedBytes(40)], &bytes).is_err());
}

#[test]
fn decode_empty_data_nonempty_types_fails() {
    let bytes: Vec<u8> = Vec::new();
    assert!(decode(&vec![AbiType::Bool], &bytes).is_err());
}

#[test]
fn uint_word_value_layout() {
    let t = uint_word(0x0102);
    match t {
        Token::Uint(w) => {
            assert_eq!(w.len(), 32);
            assert_eq!(w[30], 1);
            assert_eq!(w[31], 2);
            assert!(w[..30].iter().all(|b| *b == 0));
        },
        _ => panic!("uint_word must build a Uint token"),
    }
}
