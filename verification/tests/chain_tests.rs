use hashchain::block::Block;
use hashchain::chain::Blockchain;
use sha2::Digest;

fn mined_chain(difficulty: usize, payloads: &[&str]) -> Blockchain {
    let mut c = Blockchain::new().unwrap();
    c.difficulty = difficulty;
    for p in payloads {
        c.add_block(p.to_string()).unwrap();
    }
    c
}

#[test]
fn fresh_chain_is_valid() {
    let c = Blockchain::new().unwrap();
    assert!(c.is_chain_valid());
    assert_eq!(c.chain.len(), 1);
    assert_eq!(c.difficulty, 4);
}

#[test]
fn genesis_block_shape() {
    let g = Block::genesis().unwrap();
    assert_eq!(g.index, 0);
    assert_eq!(g.data, "Genesis Block");
    assert_eq!(g.previous_hash, "0");
    assert_eq!(g.hash, "0");
    assert_eq!(g.nonce, 0);
}

#[test]
fn append_links_to_previous_tail() {
    let mut c = Blockchain::new().unwrap();
    c.difficulty = 2;
    let prev_hash = c.get_latest_block().hash.clone();
    let prev_index = c.get_latest_block().index;
    c.add_block("x".to_string()).unwrap();
    let last = c.get_latest_block();
    assert_eq!(last.previous_hash, prev_hash);
    assert_eq!(last.index, prev_index + 1);
    assert_eq!(last.data, "x");
}

#[test]
fn mined_block_meets_difficulty() {
    let c = mined_chain(2, &["x"]);
    let last = c.get_latest_block();
    assert!(last.hash.starts_with("00"));
    assert_eq!(last.hash.len(), 64);
}

#[test]
fn difficulty_zero_appends_without_search() {
    let mut c = Blockchain::new().unwrap();
    c.difficulty = 0;
    c.add_block("x".to_string()).unwrap();
    assert_eq!(c.get_latest_block().nonce, 0);
}

#[test]
fn hasher_is_deterministic() {
    let b = Block::new(1, "payload".to_string(), "0".to_string()).unwrap();
    assert_eq!(b.calculate_hash(), b.calculate_hash());
    assert_eq!(b.hash, b.calculate_hash());
}

#[test]
fn hash_matches_reference_digest() {
    let b = Block {
        index: 7,
        timestamp: 123456789,
        data: "abc".to_string(),
        previous_hash: "prev".to_string(),
        hash: String::new(),
        nonce: 42,
    };
    let text = format!("{}{}{}{}{}", 7u32, 123456789u128, "abc", "prev", 42u64);
    let expected = format!("{:x}", sha2::Sha256::digest(text.as_bytes()));
    assert_eq!(b.calculate_hash(), expected);
}

#[test]
fn mine_block_seals_and_recomputes() {
    let mut b = Block::new(1, "x".to_string(), "0".to_string()).unwrap();
    let sealed = b.mine_block(1);
    assert!(sealed);
    assert!(b.hash.starts_with("0"));
    assert_eq!(b.hash, b.calculate_hash());
}

#[test]
fn mining_finds_least_nonce() {
    let mut b = Block::new(1, "x".to_string(), "0".to_string()).unwrap();
    let sealed = b.mine_block(1);
    assert!(sealed);
    assert!(b.hash.starts_with("0"));
    // no smaller nonce would have met the target
    for m in 0..b.nonce {
        let probe = Block { nonce: m, ..b.clone() };
        assert!(!probe.calculate_hash().starts_with("0"));
    }
}

#[test]
fn three_block_chain_validates_and_detects_tamper() {
    let mut c = mined_chain(2, &["a", "b", "c"]);
    assert!(c.is_chain_valid());
    c.chain[2].data = "tampered".to_string();
    assert!(!c.is_chain_valid());
    // the failure point is block 2: its stored hash no longer recomputes,
    // while block 1 still does and still links to genesis
    assert_ne!(c.chain[2].hash, c.chain[2].calculate_hash());
    assert_eq!(c.chain[1].hash, c.chain[1].calculate_hash());
    assert_eq!(c.chain[1].previous_hash, c.chain[0].hash);
}

#[test]
fn tamper_payload_detected() {
    let mut c = mined_chain(1, &["a"]);
    assert!(c.is_chain_valid());
    c.chain[1].data = "b".to_string();
    assert!(!c.is_chain_valid());
}

#[test]
fn tamper_previous_hash_detected() {
    let mut c = mined_chain(1, &["a"]);
    assert!(c.is_chain_valid());
    c.chain[1].previous_hash = "deadbeef".to_string();
    assert!(!c.is_chain_valid());
}

#[test]
fn tamper_nonce_detected() {
    let mut c = mined_chain(1, &["a"]);
    assert!(c.is_chain_valid());
    c.chain[1].nonce = c.chain[1].nonce.wrapping_add(1);
    assert!(!c.is_chain_valid());
}
