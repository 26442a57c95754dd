use hashchain::block::Block;
use hashchain::chain::Blockchain;
use hashchain::codec::{decode_blocks, encode_blocks, encode_chain};

fn sample_block() -> Block {
    Block {
        index: 1,
        timestamp: 2,
        data: "a".to_string(),
        previous_hash: "0".to_string(),
        hash: "00ab".to_string(),
        nonce: 3,
    }
}

#[test]
fn encode_exact_form() {
    let blocks = vec![sample_block()];
    let wire = encode_blocks(&blocks);
    assert_eq!(
        wire,
        "[{\"index\":1,\"timestamp\":2,\"data\":\"a\",\"previous_hash\":\"0\",\"hash\":\"00ab\",\"nonce\":3}]"
    );
}

#[test]
fn encode_chain_exact_form() {
    let c = Blockchain { chain: vec![sample_block()], difficulty: 4 };
    let wire = encode_chain(&c);
    assert_eq!(
        wire,
        "{\"chain\":[{\"index\":1,\"timestamp\":2,\"data\":\"a\",\"previous_hash\":\"0\",\"hash\":\"00ab\",\"nonce\":3}],\"difficulty\":4}"
    );
}

#[test]
fn empty_array_round_trip() {
    let blocks: Vec<Block> = vec![];
    let wire = encode_blocks(&blocks);
    assert_eq!(wire, "[]");
    let decoded = decode_blocks(&wire).unwrap();
    assert_eq!(decoded.len(), 0);
}

#[test]
fn peer_exchange_three_block_chain() {
    // the responder serializes its blocks; the requester decodes the stream
    let mut c = Blockchain::new().unwrap();
    c.difficulty = 1;
    c.add_block("a".to_string()).unwrap();
    c.add_block("b".to_string()).unwrap();
    let response = encode_blocks(&c.chain);
    let decoded = decode_blocks(&response).unwrap();
    assert_eq!(decoded.len(), 3);
    assert_eq!(decoded, c.chain);
}

#[test]
fn round_trip_keeps_every_field() {
    let blocks = vec![
        Block {
            index: 0,
            timestamp: 0,
            data: "Genesis Block".to_string(),
            previous_hash: "0".to_string(),
            hash: "0".to_string(),
            nonce: 0,
        },
        Block {
            index: 4294967295,
            timestamp: 340282366920938463463374607431768211455,
            data: String::new(),
            previous_hash: "00ff".to_string(),
            hash: "ab12".to_string(),
            nonce: 18446744073709551615,
        },
    ];
    let decoded = decode_blocks(&encode_blocks(&blocks)).unwrap();
    assert_eq!(decoded, blocks);
}

#[test]
fn round_trip_escaped_payload() {
    let mut b = sample_block();
    b.data = "say \"hi\"\\ \n\t\r\u{0} \u{1f} / ünïcødé ✓".to_string();
    let blocks = vec![b];
    let decoded = decode_blocks(&encode_blocks(&blocks)).unwrap();
    assert_eq!(decoded, blocks);
}

#[test]
fn decode_short_escapes() {
    let wire = "[{\"index\":0,\"timestamp\":0,\"data\":\"a\\nb\\tc\\\"d\\\\e\\/f\\u0001g\\rh\\bi\\fj\",\"previous_hash\":\"0\",\"hash\":\"0\",\"nonce\":0}]";
    let decoded = decode_blocks(wire).unwrap();
    assert_eq!(decoded.len(), 1);
    assert_eq!(decoded[0].data, "a\nb\tc\"d\\e/f\u{1}g\rh\u{8}i\u{c}j");
}

#[test]
fn decode_rejects_malformed_input() {
    assert!(decode_blocks("").is_err());
    assert!(decode_blocks("x").is_err());
    assert!(decode_blocks("[").is_err());
    assert!(decode_blocks("[}").is_err());
    assert!(decode_blocks("[{]").is_err());
    assert!(decode_blocks("[]x").is_err());
    assert!(decode_blocks("[{\"index\":}]").is_err());
    // a stray leading zero is not a JSON number
    assert!(
        decode_blocks(
            "[{\"index\":01,\"timestamp\":2,\"data\":\"a\",\"previous_hash\":\"0\",\"hash\":\"0\",\"nonce\":3}]"
        )
        .is_err()
    );
    // fields out of order are rejected
    assert!(
        decode_blocks(
            "[{\"timestamp\":2,\"index\":1,\"data\":\"a\",\"previous_hash\":\"0\",\"hash\":\"0\",\"nonce\":3}]"
        )
        .is_err()
    );
    // an unterminated string is rejected
    assert!(
        decode_blocks("[{\"index\":1,\"timestamp\":2,\"data\":\"a").is_err()
    );
    // an unknown escape is rejected
    assert!(
        decode_blocks(
            "[{\"index\":1,\"timestamp\":2,\"data\":\"\\x\",\"previous_hash\":\"0\",\"hash\":\"0\",\"nonce\":3}]"
        )
        .is_err()
    );
}

#[test]
fn decode_rejects_oversized_numbers() {
    // one past u32::MAX in the index
    assert!(
        decode_blocks(
            "[{\"index\":4294967296,\"timestamp\":2,\"data\":\"a\",\"previous_hash\":\"0\",\"hash\":\"0\",\"nonce\":3}]"
        )
        .is_err()
    );
    // one past u64::MAX in the nonce
    assert!(
        decode_blocks(
            "[{\"index\":1,\"timestamp\":2,\"data\":\"a\",\"previous_hash\":\"0\",\"hash\":\"0\",\"nonce\":18446744073709551616}]"
        )
        .is_err()
    );
    // one past u128::MAX in the timestamp
    assert!(
        decode_blocks(
            "[{\"index\":1,\"timestamp\":340282366920938463463374607431768211456,\"data\":\"a\",\"previous_hash\":\"0\",\"hash\":\"0\",\"nonce\":3}]"
        )
        .is_err()
    );
    // u128::MAX itself is accepted
    let decoded = decode_blocks(
        "[{\"index\":1,\"timestamp\":340282366920938463463374607431768211455,\"data\":\"a\",\"previous_hash\":\"0\",\"hash\":\"0\",\"nonce\":3}]"
    )
    .unwrap();
    assert_eq!(decoded[0].timestamp, u128::MAX);
}
