use axe_chain::crypto::{PublicKey, Signature};
use axe_chain::difficulty::{new_target_from_text, retarget};
use axe_chain::error::CoinError;
use axe_chain::time::Timestamp;
use axe_chain::types::blockchain::Blockchain;
use axe_chain::types::{Block, BlockHeader, Transaction, TransactionInput, TransactionOutput};
use axe_chain::u256::U256;
use axe_chain::util::MerkleRoot;

fn output(value: u64, key: u128) -> TransactionOutput {
    TransactionOutput { value, unique_key: key, pubkey: PublicKey([2u8; 33]) }
}

fn input(h: axe_chain::sha256::Hash) -> TransactionInput {
    TransactionInput { prev_transaction_output_hash: h, signature: Signature([0u8; 64]) }
}

fn at(seconds: i64) -> Timestamp {
    Timestamp { seconds, nanos: 0 }
}

/// Mines on the header until its hash lies below the easiest target, the
/// target of a chain that has not been adjusted.
fn mine(b: &mut Block) {
    b.header.target = axe_chain::min_target();
    assert!(b.mine_blocks(100_000_000));
}

/// Moves the header nonce on until the header hash is not below the easiest target.
fn unmine(b: &mut Block) {
    while b.header.hash().match_target(axe_chain::min_target()) {
        b.header.nonce += 1;
    }
}

fn make_block(prev: axe_chain::sha256::Hash, time: Timestamp, txs: Vec<Transaction>) -> Block {
    let header = BlockHeader::new(time, 0, prev, MerkleRoot::calculate(&txs), axe_chain::min_target());
    let mut b = Block::new(header, U256::zero(), txs);
    mine(&mut b);
    b
}

fn coinbase(key: u128) -> Transaction {
    Transaction::new(vec![], vec![output(50, key)])
}

/// A chain of `n` blocks, `step` seconds apart, each with one coinbase.
fn chain_of(n: usize, step: i64) -> Blockchain {
    let mut chain = Blockchain::new();
    let mut prev = axe_chain::sha256::Hash::zero();
    for i in 0..n {
        let b = make_block(prev, at(1_000 + step * i as i64), vec![coinbase(i as u128)]);
        prev = b.hash();
        assert_eq!(chain.add_block(b), Ok(()));
    }
    chain
}

#[test]
fn new_chain_is_empty_with_easiest_target() {
    let chain = Blockchain::new();
    assert_eq!(chain.block_hieght(), 0);
    assert!(chain.blocks().is_empty());
    assert!(chain.mempool().is_empty());
    assert_eq!(chain.target().to_big_endian(), axe_chain::min_target().to_big_endian());
}

#[test]
fn genesis_must_point_to_zero() {
    let mut chain = Blockchain::new();
    let bad = make_block(axe_chain::sha256::Hash::hash(b"x"), at(5), vec![coinbase(1)]);
    assert_eq!(chain.add_block(bad), Err(CoinError::InvalidBlock));
    assert_eq!(chain.block_hieght(), 0);
    let good = make_block(axe_chain::sha256::Hash::zero(), at(5), vec![coinbase(1)]);
    assert_eq!(chain.add_block(good), Ok(()));
    assert_eq!(chain.block_hieght(), 1);
}

#[test]
fn later_blocks_are_checked() {
    let mut chain = chain_of(2, 10);
    let last = chain.blocks()[1].hash();
    let wrong_prev = make_block(axe_chain::sha256::Hash::zero(), at(2_000), vec![coinbase(5)]);
    assert_eq!(chain.add_block(wrong_prev), Err(CoinError::InvalidBlock));
    let too_early = make_block(last, at(1_010), vec![coinbase(5)]);
    assert_eq!(chain.add_block(too_early), Err(CoinError::InvalidBlock));
    let mut wrong_root = make_block(last, at(2_000), vec![coinbase(5)]);
    wrong_root.header.merkle_root = MerkleRoot(axe_chain::sha256::Hash::zero());
    mine(&mut wrong_root);
    assert_eq!(chain.add_block(wrong_root), Err(CoinError::InvalidBlock));
    // Not enough work for the chain's target, though the header claims an
    // easier target of its own.
    let mut lazy = make_block(last, at(2_000), vec![coinbase(5)]);
    unmine(&mut lazy);
    lazy.header.target = U256::max_value();
    assert!(lazy.header.hash().match_target(lazy.header.target));
    assert_eq!(chain.add_block(lazy), Err(CoinError::InvalidBlock));
    assert_eq!(chain.block_hieght(), 2);
    let ok = make_block(last, at(2_000), vec![coinbase(5)]);
    assert_eq!(chain.add_block_checked(ok), Some(Ok(())));
    assert_eq!(chain.block_hieght(), 3);
}

#[test]
fn retarget_scales_by_time_taken() {
    let min = axe_chain::min_target();
    // 490 s where 500 s was the aim.
    let expected = min.checked_mul_u64(49).unwrap().div_u64(50);
    assert_eq!(retarget(&min, 490, 500).unwrap().to_big_endian(), expected.to_big_endian());
    // Too slow: clamped at four times, then at the easiest target.
    assert_eq!(retarget(&min, 4_900, 500).unwrap().to_big_endian(), min.to_big_endian());
    // Too fast: clamped at a quarter.
    assert_eq!(retarget(&min, 49, 500).unwrap().to_big_endian(), min.div_u64(4).to_big_endian());
    // Not due yet: a short chain keeps the easiest target.
    let chain = chain_of(3, 1);
    assert_eq!(chain.target().to_big_endian(), min.to_big_endian());
}

#[test]
fn retarget_from_text() {
    let t = U256::from_u64(1000);
    let r = new_target_from_text(&t, &b"980.5".to_vec()).unwrap();
    assert_eq!(r.to_big_endian(), U256::from_u64(980).to_big_endian());
    let r = new_target_from_text(&t, &b"10".to_vec()).unwrap();
    assert_eq!(r.to_big_endian(), U256::from_u64(250).to_big_endian());
    let r = new_target_from_text(&t, &b"99999".to_vec()).unwrap();
    assert_eq!(r.to_big_endian(), U256::from_u64(4000).to_big_endian());
    assert!(new_target_from_text(&t, &b"-5".to_vec()).is_none());
    assert!(new_target_from_text(&t, &b"1E+5".to_vec()).is_none());
    let r = retarget(&t, 1000, 500).unwrap();
    assert_eq!(r.to_big_endian(), U256::from_u64(2000).to_big_endian());
    let r = retarget(&t, 1, 3).unwrap();
    assert_eq!(r.to_big_endian(), U256::from_u64(333).to_big_endian());
    assert!(retarget(&t, -1000, 500).is_none());
}

#[test]
fn rebuild_utxos_replays_blocks() {
    let mut chain = chain_of(1, 10);
    chain.rebuild_utxos();
    let cb = chain.blocks()[0].transactions[0].clone();
    let entry = chain.utxos().get(&cb.hash()).unwrap();
    assert!(!entry.0);
    assert_eq!(entry.1.value, 50);
    // A later block spends it.
    let last = chain.blocks()[0].hash();
    let spend = Transaction::new(vec![input(cb.hash())], vec![output(40, 77)]);
    let b = make_block(last, at(5_000), vec![coinbase(9), spend.clone()]);
    assert_eq!(chain.add_block(b), Ok(()));
    chain.rebuild_utxos();
    assert!(!chain.utxos().contains_key(&cb.hash()));
    assert_eq!(chain.utxos().get(&spend.hash()).unwrap().1.value, 40);
}

fn funded_chain() -> (Blockchain, axe_chain::sha256::Hash) {
    let mut chain = chain_of(1, 10);
    chain.rebuild_utxos();
    let h = chain.blocks()[0].transactions[0].hash();
    (chain, h)
}

#[test]
fn mempool_refuses_bad_inputs() {
    let (mut chain, h) = funded_chain();
    let unknown = Transaction::new(vec![input(axe_chain::sha256::Hash::zero())], vec![]);
    assert_eq!(chain.add_tx_mempool(unknown), Err(CoinError::InvalidTransactionInput));
    let twice = Transaction::new(vec![input(h), input(h)], vec![]);
    assert_eq!(chain.add_tx_mempool(twice), Err(CoinError::InvalidTransaction));
    assert!(chain.mempool().is_empty());
}

#[test]
fn mempool_is_sorted_by_fee() {
    let (mut chain, h) = funded_chain();
    let high_fee = Transaction::new(vec![input(h)], vec![output(30, 1)]);
    let low_fee = Transaction::new(vec![input(h)], vec![output(45, 2)]);
    assert_eq!(chain.add_tx_mempool_at(high_fee, at(100)), Ok(()));
    assert_eq!(chain.add_tx_mempool_at(low_fee, at(200)), Ok(()));
    let pool = chain.mempool();
    assert_eq!(pool.len(), 2);
    assert_eq!(pool[0].1.outputs[0].value, 45);
    assert_eq!(pool[1].1.outputs[0].value, 30);
    assert_eq!(pool[0].0, at(200));
}

#[test]
fn clean_mempool_drops_old_transactions() {
    let (mut chain, h) = funded_chain();
    let old = Transaction::new(vec![input(h)], vec![output(30, 1)]);
    let young = Transaction::new(vec![input(h)], vec![output(20, 2)]);
    assert_eq!(chain.add_tx_mempool_at(old, at(100)), Ok(()));
    assert_eq!(chain.add_tx_mempool_at(young, at(650)), Ok(()));
    assert_eq!(chain.clean_mempool_at(at(700)), Ok(()));
    assert_eq!(chain.mempool().len(), 2);
    assert_eq!(chain.clean_mempool_at(at(701)), Ok(()));
    assert_eq!(chain.mempool().len(), 1);
    assert_eq!(chain.mempool()[0].1.outputs[0].value, 20);
    assert!(!chain.utxos().get(&h).unwrap().0);
    assert_eq!(chain.clean_mempool(), Ok(()));
    assert!(chain.mempool().is_empty());
}

#[test]
fn clean_mempool_keeps_fresh_transactions() {
    let (mut chain, h) = funded_chain();
    let tx = Transaction::new(vec![input(h)], vec![output(20, 2)]);
    assert_eq!(chain.add_tx_mempool(tx), Ok(()));
    assert_eq!(chain.clean_mempool(), Ok(()));
    assert_eq!(chain.mempool().len(), 1);
}

#[test]
fn mempool_insert_stops_where_a_fee_is_undefined() {
    let (mut chain, h) = funded_chain();
    // Alone in the mempool, a transaction that creates more than it spends is
    // kept: sorting one transaction reads no fee.
    let over = Transaction::new(vec![input(h)], vec![output(60, 3)]);
    assert_eq!(chain.add_tx_mempool_checked(over.clone(), at(100)), Some(Ok(())));
    assert_eq!(chain.mempool().len(), 1);
    // With another transaction there, the sort would read its fee.
    let (mut chain, h) = funded_chain();
    let fair = Transaction::new(vec![input(h)], vec![output(30, 1)]);
    assert_eq!(chain.add_tx_mempool_checked(fair, at(100)), Some(Ok(())));
    assert_eq!(chain.add_tx_mempool_checked(over, at(200)), None);
    assert_eq!(chain.mempool().len(), 1);
    assert_eq!(chain.mempool()[0].1.outputs[0].value, 30);
    // A refused input is answered before any fee is read.
    let unknown = Transaction::new(vec![input(axe_chain::sha256::Hash::zero())], vec![]);
    assert_eq!(
        chain.add_tx_mempool_checked(unknown, at(300)),
        Some(Err(CoinError::InvalidTransactionInput))
    );
}

#[test]
fn a_block_mined_against_the_chain_target_is_accepted() {
    let mut chain = chain_of(1, 10);
    let last = chain.blocks()[0].hash();
    let txs = vec![coinbase(3)];
    let header = BlockHeader::new(at(3_000), 0, last, MerkleRoot::calculate(&txs), chain.target());
    let mut b = Block::new(header, U256::zero(), txs);
    assert!(b.mine_blocks(100_000_000));
    assert!(b.header.hash().match_target(chain.target()));
    assert_eq!(chain.add_block(b), Ok(()));
}

#[test]
fn rebuilding_twice_is_rebuilding_once() {
    let mut chain = chain_of(1, 10);
    let cb = chain.blocks()[0].transactions[0].clone();
    let last = chain.blocks()[0].hash();
    let spend = Transaction::new(vec![input(cb.hash())], vec![output(40, 77)]);
    let b = make_block(last, at(5_000), vec![coinbase(9), spend.clone()]);
    assert_eq!(chain.add_block(b), Ok(()));
    chain.rebuild_utxos();
    let keys = [cb.hash(), spend.hash(), chain.blocks()[1].transactions[0].hash()];
    let once: Vec<_> = keys.iter().map(|k| chain.utxos().get(k).map(|e| (e.0, e.1.value))).collect();
    chain.rebuild_utxos();
    let twice: Vec<_> = keys.iter().map(|k| chain.utxos().get(k).map(|e| (e.0, e.1.value))).collect();
    assert_eq!(once, twice);
    assert_eq!(once, vec![None, Some((false, 40)), Some((false, 50))]);
}
