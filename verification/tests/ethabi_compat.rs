//! The codec's byte layout must match the chain's canonical ABI, so smart
//! contracts and the proving program can consume these payloads without
//! custom logic.  These tests hold `encode`/`decode` against ethabi.
use ethabi::ethereum_types::H160;
use ethabi::ethereum_types::U256;
use ethabi::ParamType;
use ethabi::Token as EthToken;
use query_relay::abi::AbiType;
use query_relay::abi::Token;
use query_relay::codec::decode;
use query_relay::codec::encode;
use query_relay::codec::uint_word;

#[test]
fn encode_matches_ethabi_format_a_query() {
    let mine = encode(&vec![
        Token::FixedBytes(vec![0u8; 16]),
        Token::Text(b"file-123".to_vec()),
    ])
    .unwrap();
    let theirs = ethabi::encode(&[
        EthToken::FixedBytes(vec![0u8; 16]),
        EthToken::String("file-123".to_string()),
    ]);
    assert_eq!(mine, theirs);
}

#[test]
fn encode_matches_ethabi_format_b_query() {
    let mine = encode(&vec![
        Token::FixedBytes(vec![7u8; 32]),
        Token::Text(b"doc-42".to_vec()),
        Token::Text(b"v1".to_vec()),
    ])
    .unwrap();
    let theirs = ethabi::encode(&[
        EthToken::FixedBytes(vec![7u8; 32]),
        EthToken::String("doc-42".to_string()),
        EthToken::String("v1".to_string()),
    ]);
    assert_eq!(mine, theirs);
}

#[test]
fn encode_matches_ethabi_callback_input() {
    let qd = ethabi::encode(&[
        EthToken::FixedBytes(vec![1u8; 32]),
        EthToken::String("doc-42".to_string()),
        EthToken::String("v1".to_string()),
    ]);
    let mine = encode(&vec![
        Token::FixedBytes(vec![9u8; 32]),
        Token::Bytes(qd.clone()),
        Token::Text(b"[]".to_vec()),
    ])
    .unwrap();
    let theirs = ethabi::encode(&[
        EthToken::FixedBytes(vec![9u8; 32]),
        EthToken::Bytes(qd),
        EthToken::String("[]".to_string()),
    ]);
    assert_eq!(mine, theirs);
}

#[test]
fn encode_matches_ethabi_static_kinds() {
    let mine = encode(&vec![
        uint_word(0x1234_5678_9abc_def0),
        Token::Bool(true),
        Token::Address(vec![0x42; 20]),
    ])
    .unwrap();
    let theirs = ethabi::encode(&[
        EthToken::Uint(U256::from(0x1234_5678_9abc_def0u64)),
        EthToken::Bool(true),
        EthToken::Address(H160::from_slice(&[0x42; 20])),
    ]);
    assert_eq!(mine, theirs);
}

#[test]
fn ethabi_decodes_my_encoding() {
    let mine = encode(&vec![
        Token::Bytes(b"payload".to_vec()),
        Token::Text(b"json".to_vec()),
    ])
    .unwrap();
    let theirs = ethabi::decode(&[ParamType::Bytes, ParamType::String], &mine).unwrap();
    assert_eq!(
        theirs,
        vec![
            EthToken::Bytes(b"payload".to_vec()),
            EthToken::String("json".to_string()),
        ]
    );
}

#[test]
fn my_decode_accepts_ethabi_encoding() {
    let theirs = ethabi::encode(&[
        EthToken::FixedBytes(vec![3u8; 16]),
        EthToken::String("file-9".to_string()),
    ]);
    let mine = decode(&vec![AbiType::FixedBytes(16), AbiType::Text], &theirs).unwrap();
    assert_eq!(
        mine,
        vec![Token::FixedBytes(vec![3u8; 16]), Token::Text(b"file-9".to_vec())]
    );
}
