use axe_chain::crypto::{PublicKey, Signature};
use axe_chain::error::CoinError;
use axe_chain::output_map::OutputMap;
use axe_chain::time::Timestamp;
use axe_chain::types::{Block, BlockHeader, Transaction, TransactionInput, TransactionOutput};
use axe_chain::u256::U256;
use axe_chain::util::MerkleRoot;
use k256::ecdsa::signature::Signer;
use k256::ecdsa::SigningKey;
use ciborium::value::Value;

fn keypair(seed: u8) -> (SigningKey, PublicKey) {
    let sk = SigningKey::from_bytes(&[seed; 32].into()).unwrap();
    let point = sk.verifying_key().to_encoded_point(true);
    let mut pk = [0u8; 33];
    pk.copy_from_slice(point.as_bytes());
    (sk, PublicKey(pk))
}

fn sign(sk: &SigningKey, h: &axe_chain::sha256::Hash) -> Signature {
    let sig: k256::ecdsa::Signature = sk.sign(&h.to_bytes());
    let mut b = [0u8; 64];
    b.copy_from_slice(&sig.to_bytes());
    Signature(b)
}

fn output(value: u64, key: u128) -> TransactionOutput {
    TransactionOutput { value, unique_key: key, pubkey: keypair(7).1 }
}

fn input(h: axe_chain::sha256::Hash) -> TransactionInput {
    TransactionInput { prev_transaction_output_hash: h, signature: Signature([0u8; 64]) }
}

fn header(txs: &[Transaction]) -> BlockHeader {
    BlockHeader::new(
        Timestamp { seconds: 1_700_000_000, nanos: 0 },
        0,
        axe_chain::sha256::Hash::zero(),
        MerkleRoot::calculate(txs),
        U256::max_value(),
    )
}

fn block(txs: Vec<Transaction>) -> Block {
    let h = header(&txs);
    Block::new(h, U256::zero(), txs)
}

fn utxo_with(entries: &[(axe_chain::sha256::Hash, TransactionOutput)]) -> OutputMap<TransactionOutput> {
    let mut m = OutputMap::new();
    for (h, o) in entries {
        m.insert(*h, *o);
    }
    m
}

#[test]
fn signature_verifies_only_the_signed_hash() {
    let (sk, pk) = keypair(3);
    let h = axe_chain::sha256::Hash::hash(b"output");
    let sig = sign(&sk, &h);
    assert!(sig.verify(&h, &pk));
    assert!(!sig.verify(&axe_chain::sha256::Hash::hash(b"other"), &pk));
    assert!(!sig.verify(&h, &keypair(4).1));
    assert!(!sig.verify(&h, &PublicKey([0u8; 33])));
    assert!(!Signature([0u8; 64]).verify(&h, &pk));
}

#[test]
fn merkle_root_of_few_transactions() {
    assert!(MerkleRoot::calculate(&[]).0.eq(&axe_chain::sha256::Hash::zero()));
    let t1 = Transaction::new(vec![], vec![output(1, 1)]);
    let t2 = Transaction::new(vec![], vec![output(2, 2)]);
    let one = MerkleRoot::calculate(&[t1.clone()]);
    assert!(one.0.eq(&t1.hash()));
    let two = MerkleRoot::calculate(&[t1.clone(), t2.clone()]);
    let mut pair = vec![0x82u8, 0x58, 0x20];
    let mut b1 = t1.hash().to_bytes();
    b1.reverse();
    pair.extend_from_slice(&b1);
    pair.extend_from_slice(&[0x58, 0x20]);
    let mut b2 = t2.hash().to_bytes();
    b2.reverse();
    pair.extend_from_slice(&b2);
    assert!(two.0.eq(&axe_chain::sha256::Hash::hash(&pair)));
    let three = MerkleRoot::calculate(&[t1.clone(), t2.clone(), t1.clone()]);
    assert!(!three.0.eq(&two.0));
}

#[test]
fn verify_transactions_refuses_an_empty_block() {
    let b = block(vec![]);
    assert_eq!(b.verify_transactions(0, &OutputMap::new()), Err(CoinError::InvalidTransaction));
}

#[test]
fn verify_transactions_accepts_spending_known_outputs() {
    let h = axe_chain::sha256::Hash::hash(b"o1");
    let utxo = utxo_with(&[(h, output(50, 1))]);
    let tx = Transaction::new(vec![input(h)], vec![output(30, 2), output(20, 3)]);
    assert_eq!(block(vec![tx]).verify_transactions(0, &utxo), Ok(()));
}

#[test]
fn verify_transactions_errors() {
    let h = axe_chain::sha256::Hash::hash(b"o1");
    let utxo = utxo_with(&[(h, output(50, 1))]);
    let unknown = Transaction::new(vec![input(axe_chain::sha256::Hash::hash(b"nope"))], vec![]);
    assert_eq!(block(vec![unknown]).verify_transactions(0, &utxo), Err(CoinError::InvalidTransaction));
    let twice = Transaction::new(vec![input(h), input(h)], vec![]);
    assert_eq!(block(vec![twice]).verify_transactions(0, &utxo), Err(CoinError::InvalidTransactionOutput));
    let a = Transaction::new(vec![input(h)], vec![]);
    let b = Transaction::new(vec![input(h)], vec![]);
    assert_eq!(block(vec![a, b]).verify_transactions(0, &utxo), Err(CoinError::InvalidTransactionOutput));
    let too_much = Transaction::new(vec![input(h)], vec![output(51, 2)]);
    assert_eq!(block(vec![too_much]).verify_transactions(0, &utxo), Err(CoinError::InvalidTransaction));
}

#[test]
fn verify_transactions_refuses_a_verifying_signature() {
    // The check refuses an input whose signature verifies against the key of
    // the output it spends.
    let (sk, pk) = keypair(5);
    let h = axe_chain::sha256::Hash::hash(b"o1");
    let o = TransactionOutput { value: 10, unique_key: 1, pubkey: pk };
    let utxo = utxo_with(&[(h, o)]);
    let signed = TransactionInput { prev_transaction_output_hash: h, signature: sign(&sk, &h) };
    let tx = Transaction::new(vec![signed], vec![]);
    assert_eq!(block(vec![tx]).verify_transactions(0, &utxo), Err(CoinError::InvalidSignature));
}

#[test]
fn miner_reward_is_inputs_minus_outputs() {
    let h1 = axe_chain::sha256::Hash::hash(b"o1");
    let h2 = axe_chain::sha256::Hash::hash(b"o2");
    let utxo = utxo_with(&[(h1, output(50, 1)), (h2, output(70, 2))]);
    let coinbase = Transaction::new(vec![], vec![output(1, 9)]);
    let t1 = Transaction::new(vec![input(h1)], vec![output(30, 3)]);
    let t2 = Transaction::new(vec![input(h2)], vec![output(60, 4)]);
    let b = block(vec![coinbase.clone(), t1.clone(), t2]);
    assert_eq!(b.calculate_miner_reward(utxo), Ok(30));
    let utxo = utxo_with(&[(h1, output(50, 1))]);
    let b = block(vec![coinbase.clone(), t1.clone(), t1.clone()]);
    assert_eq!(b.calculate_miner_reward(utxo), Err(CoinError::InvalidTransaction));
    let utxo = utxo_with(&[(h1, output(50, 1))]);
    let dup_out = Transaction::new(vec![input(h1)], vec![output(5, 3), output(5, 3)]);
    assert_eq!(block(vec![coinbase, dup_out]).calculate_miner_reward(utxo), Err(CoinError::InvalidTransaction));
    assert_eq!(block(vec![]).calculate_miner_reward(OutputMap::new()), Ok(0));
}

#[test]
fn coinbase_must_pay_reward_and_fees() {
    let h1 = axe_chain::sha256::Hash::hash(b"o1");
    let t1 = Transaction::new(vec![input(h1)], vec![output(30, 3)]);
    let pays = |amount: u64, height: u64| {
        let utxo = utxo_with(&[(h1, output(50, 1))]);
        let coinbase = Transaction::new(vec![], vec![output(amount, 9)]);
        block(vec![coinbase, t1.clone()]).verify_coinbase_transactions(height, utxo)
    };
    assert_eq!(pays(5_000_000_020, 0), Ok(()));
    assert_eq!(pays(5_000_000_019, 0), Err(CoinError::InvalidTransaction));
    assert_eq!(pays(2_500_000_020, 210), Ok(()));
    assert_eq!(pays(2_500_000_019, 419), Err(CoinError::InvalidTransaction));
    let with_input = Transaction::new(vec![input(h1)], vec![output(1, 1)]);
    assert_eq!(
        block(vec![with_input]).verify_coinbase_transactions(0, OutputMap::new()),
        Err(CoinError::InvalidTransaction)
    );
    let no_outputs = Transaction::new(vec![], vec![]);
    assert_eq!(
        block(vec![no_outputs]).verify_coinbase_transactions(0, OutputMap::new()),
        Err(CoinError::InvalidTransaction)
    );
}

#[test]
fn mining_with_an_easy_target_succeeds_at_once() {
    let mut b = block(vec![Transaction::new(vec![], vec![output(1, 1)])]);
    assert!(b.mine_blocks(10));
    assert_eq!(b.header.nonce, 0);
    assert!(b.header.hash().match_target(b.header.target));
}

#[test]
fn mining_with_an_impossible_target_steps_the_nonce() {
    let mut b = block(vec![]);
    b.header.target = U256::zero();
    assert!(!b.mine_blocks(5));
    assert_eq!(b.header.nonce, 5);
    assert_eq!(b.nonce.to_big_endian(), U256::zero().to_big_endian());
    let mut top = block(vec![]);
    top.header.target = U256::zero();
    top.header.nonce = u64::MAX;
    assert!(!top.mine_blocks(3));
    assert_eq!(top.header.nonce, u64::MAX);
}

#[test]
fn mining_finds_a_header_nonce_below_a_moderate_target() {
    let mut b = block(vec![]);
    b.header.target = U256::max_value().div_u64(16);
    let found = b.mine_blocks(2000);
    assert!(found);
    assert!(b.header.hash().match_target(b.header.target));
    // The first nonce that hits: none before it does.
    let mut probe = block(vec![]);
    probe.header.target = b.header.target;
    for n in 0..b.header.nonce {
        probe.header.nonce = n;
        assert!(!probe.header.hash().match_target(probe.header.target));
    }
}

#[test]
fn hashes_depend_on_every_part() {
    let t = Transaction::new(vec![], vec![output(1, 1)]);
    let b1 = block(vec![t.clone()]);
    let mut b2 = block(vec![t.clone()]);
    assert!(b1.hash().eq(&b2.hash()));
    b2.nonce = U256::from_u64(1);
    assert!(!b1.hash().eq(&b2.hash()));
    assert!(b1.header.hash().eq(&b2.header.hash()));
    assert!(!output(1, 1).hash().eq(&output(1, 2).hash()));
}

#[test]
fn error_messages() {
    assert_eq!(CoinError::InvalidTransaction.message(), "Invalid transaction");
    assert_eq!(CoinError::InvalidBlock.message(), "Invalid block");
    assert_eq!(CoinError::InvalidTransactionOutput.message(), "Invalid transaction output");
    assert_eq!(CoinError::InvalidSignature.message(), "Invalid signature");
    assert_eq!(CoinError::InvalidTransactionInput.message(), "Invalid transaction input");
}

#[test]
fn checked_transaction_check_stops_on_overflow() {
    let h1 = axe_chain::sha256::Hash::hash(b"o1");
    let h2 = axe_chain::sha256::Hash::hash(b"o2");
    let big = u64::MAX / 2 + 1;
    let utxo = utxo_with(&[(h1, output(big, 1)), (h2, output(big, 2))]);
    let both = Transaction::new(vec![input(h1), input(h2)], vec![]);
    assert_eq!(block(vec![both]).verify_transactions_checked(0, &utxo), None);
    let huge_out = Transaction::new(vec![input(h1)], vec![output(u64::MAX, 3), output(1, 4)]);
    assert_eq!(block(vec![huge_out]).verify_transactions_checked(0, &utxo), None);
    let fine = Transaction::new(vec![input(h1)], vec![output(5, 3)]);
    assert_eq!(block(vec![fine]).verify_transactions_checked(0, &utxo), Some(Ok(())));
    assert_eq!(
        block(vec![]).verify_transactions_checked(0, &utxo),
        Some(Err(CoinError::InvalidTransaction))
    );
}

#[test]
fn checked_miner_reward_stops_where_outputs_exceed_inputs() {
    let h1 = axe_chain::sha256::Hash::hash(b"o1");
    let coinbase = Transaction::new(vec![], vec![output(1, 9)]);
    let over = Transaction::new(vec![input(h1)], vec![output(60, 3)]);
    let b = block(vec![coinbase.clone(), over]);
    assert_eq!(b.calculate_miner_reward_checked(utxo_with(&[(h1, output(50, 1))])), None);
    let fair = Transaction::new(vec![input(h1)], vec![output(45, 3)]);
    let b = block(vec![coinbase.clone(), fair.clone()]);
    assert_eq!(b.calculate_miner_reward_checked(utxo_with(&[(h1, output(50, 1))])), Some(Ok(5)));
    // The coinbase never counts.
    let other_coinbase = Transaction::new(vec![input(h1)], vec![output(1_000, 8)]);
    let b2 = block(vec![other_coinbase, fair]);
    assert_eq!(b2.calculate_miner_reward_checked(utxo_with(&[(h1, output(50, 1))])), Some(Ok(5)));
}

#[test]
fn checked_coinbase_check_stops_where_it_cannot_finish() {
    let h1 = axe_chain::sha256::Hash::hash(b"o1");
    assert_eq!(block(vec![]).verify_coinbase_transactions_checked(0, OutputMap::new()), None);
    let coinbase = Transaction::new(vec![], vec![output(6_000_000_000, 9)]);
    let over = Transaction::new(vec![input(h1)], vec![output(60, 3)]);
    let b = block(vec![coinbase.clone(), over]);
    assert_eq!(b.verify_coinbase_transactions_checked(0, utxo_with(&[(h1, output(50, 1))])), None);
    let b = block(vec![coinbase.clone()]);
    assert_eq!(b.verify_coinbase_transactions_checked(0, OutputMap::new()), Some(Ok(())));
    // 64 halvings: the power of two would not fit.
    assert_eq!(b.verify_coinbase_transactions_checked(210 * 64, OutputMap::new()), None);
    let with_input = Transaction::new(vec![input(h1)], vec![output(1, 1)]);
    assert_eq!(
        block(vec![with_input]).verify_coinbase_transactions_checked(0, OutputMap::new()),
        Some(Err(CoinError::InvalidTransaction))
    );
}

fn be32(mut le: [u8; 32]) -> Vec<u8> {
    le.reverse();
    le.to_vec()
}

/// The CBOR of a header as ciborium writes it, the time through chrono's serde form.
fn header_cbor(h: &BlockHeader) -> Vec<u8> {
    let time = chrono::DateTime::from_timestamp(h.timestamp.seconds, h.timestamp.nanos).unwrap();
    let value = Value::Map(vec![
        (Value::Text("timestamp".to_string()), Value::serialized(&time).unwrap()),
        (Value::Text("nonce".to_string()), Value::Integer(h.nonce.into())),
        (Value::Text("prev_block_hash".to_string()), Value::Bytes(be32(h.prev_block_hash.to_bytes()))),
        (Value::Text("merkle_root".to_string()), Value::Bytes(be32(h.merkle_root.0.to_bytes()))),
        (Value::Text("target".to_string()), Value::Bytes(h.target.to_big_endian().to_vec())),
    ]);
    let mut bytes = vec![];
    ciborium::into_writer(&value, &mut bytes).unwrap();
    bytes
}

#[test]
fn header_time_is_hashed_as_chrono_serializes_it() {
    for (seconds, nanos) in [(1_700_000_000i64, 0u32), (1_700_000_000, 500_000_000), (-5, 123_456), (0, 7)] {
        let mut h = header(&[]);
        h.timestamp = Timestamp { seconds, nanos };
        h.nonce = 42;
        assert!(h.hash().eq(&axe_chain::sha256::Hash::hash(&header_cbor(&h))));
    }
    let time = chrono::DateTime::from_timestamp(1_700_000_000, 500_000_000).unwrap();
    assert_eq!(Value::serialized(&time).unwrap(),
        Value::Text("2023-11-14T22:13:20.500Z".to_string()));
}

#[test]
fn output_key_is_hashed_as_uuid_serializes_it() {
    let o = output(1234, 0x0123_4567_89ab_cdef_0011_2233_4455_6677);
    let value = Value::Map(vec![
        (Value::Text("value".to_string()), Value::Integer(o.value.into())),
        (
            Value::Text("unique_key".to_string()),
            Value::serialized(&uuid::Uuid::from_u128(o.unique_key)).unwrap(),
        ),
        (Value::Text("pubkey".to_string()), Value::Bytes(o.pubkey.0.to_vec())),
    ]);
    let mut bytes = vec![];
    ciborium::into_writer(&value, &mut bytes).unwrap();
    assert!(o.hash().eq(&axe_chain::sha256::Hash::hash(&bytes)));
}
