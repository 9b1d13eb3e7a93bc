//! The chain: its blocks, its unspent outputs, its target and its mempool.

use vstd::prelude::*;
use crate::difficulty::{clamp_target, parse_target, retarget, scaled_target_text};
use crate::encoding::be_bytes;
use crate::error::CoinError;
use crate::output_map::OutputMap;
use crate::time::{Timestamp, nanos_between, not_after, seconds_between};
use crate::types::{Block, Transaction, TransactionInput, TransactionOutput, block_hash, header_hash, input_hashes, output_hash, transaction_hash};
use crate::types::block::{contains_hash, lemma_push_no_duplicates, lemma_value_sum_prefix, meets_target, sum_values, value_sum};
use crate::u256::U256;
use crate::util::{MerkleRoot, merkle_root_of, transaction_hashes};
use crate::{DIFFICULTY_UPDATE_INTERVAL, IDEAL_BLOCK_TIME, MAX_MEMPOOL_TRANSACTION_AGE, min_target_value};
use crate::util::hash_values;

verus! {

/// Whether the chain `blocks`, whose current target is `target`, accepts `b`
/// as its next block. The first block must point to the zero hash. A later
/// one must point to the hash of the last block, have a header hash below the
/// current target, carry the Merkle root of its transactions, and come
/// strictly after the last block.
pub open spec fn block_accepted(blocks: Seq<Block>, target: U256, b: Block) -> bool {
    if blocks.len() == 0 {
        b.header.prev_block_hash@ == 0
    } else {
        let last = blocks.last();
        &&& b.header.prev_block_hash@ == block_hash(last)
        &&& meets_target(b.header, target)
        &&& merkle_root_of(transaction_hashes(b.transactions@)) == b.header.merkle_root.0@
        &&& !not_after(b.header.timestamp, last.header.timestamp)
    }
}

/// The target is due for adjustment: the chain is not empty and its length
/// is a multiple of `DIFFICULTY_UPDATE_INTERVAL`.
pub open spec fn retarget_due(blocks: Seq<Block>) -> bool {
    blocks.len() > 0 && blocks.len() % (DIFFICULTY_UPDATE_INTERVAL as nat) == 0
}

/// Whole seconds that the last `DIFFICULTY_UPDATE_INTERVAL` blocks took, from
/// the first of them to the last.
pub open spec fn retarget_seconds(blocks: Seq<Block>) -> int {
    seconds_between(
        blocks.last().header.timestamp,
        blocks[blocks.len() - DIFFICULTY_UPDATE_INTERVAL].header.timestamp,
    )
}

/// The target after `try_adjust_target` on a chain of `blocks` with target
/// `target`: unchanged unless an adjustment is due; then the target scaled by
/// the time taken over the ideal time and clamped. `None` where the scaled
/// target does not read as a number below 2^256.
pub open spec fn adjusted_target(blocks: Seq<Block>, target: U256) -> Option<nat> {
    if !retarget_due(blocks) {
        Some(target@)
    } else {
        match parse_target(
            scaled_target_text(
                be_bytes(target@, 32),
                retarget_seconds(blocks) as i128,
                (IDEAL_BLOCK_TIME * DIFFICULTY_UPDATE_INTERVAL) as u64,
            ),
        ) {
            Some(v) => Some(clamp_target(target@, v)),
            None => None,
        }
    }
}

/// The table after removing the outputs that `inputs` spend, one after the other.
pub open spec fn remove_inputs(
    m: Map<nat, (bool, TransactionOutput)>,
    inputs: Seq<TransactionInput>,
) -> Map<nat, (bool, TransactionOutput)>
    decreases inputs.len(),
{
    if inputs.len() == 0 {
        m
    } else {
        remove_inputs(m, inputs.drop_last()).remove(inputs.last().prev_transaction_output_hash@)
    }
}

/// The table after setting `key` to each of `outputs` in turn, unmarked; the
/// last one stays.
pub open spec fn insert_outputs(
    m: Map<nat, (bool, TransactionOutput)>,
    key: nat,
    outputs: Seq<TransactionOutput>,
) -> Map<nat, (bool, TransactionOutput)>
    decreases outputs.len(),
{
    if outputs.len() == 0 {
        m
    } else {
        insert_outputs(m, key, outputs.drop_last()).insert(key, (false, outputs.last()))
    }
}

/// The table after one transaction: its inputs removed, then its outputs
/// set under the transaction's hash.
pub open spec fn apply_transaction(m: Map<nat, (bool, TransactionOutput)>, tx: Transaction) -> Map<
    nat,
    (bool, TransactionOutput),
> {
    insert_outputs(remove_inputs(m, tx.inputs@), transaction_hash(tx), tx.outputs@)
}

/// The table after transactions in order.
pub open spec fn apply_transactions(
    m: Map<nat, (bool, TransactionOutput)>,
    txs: Seq<Transaction>,
) -> Map<nat, (bool, TransactionOutput)>
    decreases txs.len(),
{
    if txs.len() == 0 {
        m
    } else {
        apply_transaction(apply_transactions(m, txs.drop_last()), txs.last())
    }
}

/// The table after the transactions of blocks in order.
pub open spec fn apply_blocks(m: Map<nat, (bool, TransactionOutput)>, blocks: Seq<Block>) -> Map<
    nat,
    (bool, TransactionOutput),
>
    decreases blocks.len(),
{
    if blocks.len() == 0 {
        m
    } else {
        apply_transactions(apply_blocks(m, blocks.drop_last()), blocks.last().transactions@)
    }
}

/// At `k` the tables `a` and `b` agree: both lack it, or both hold the same value.
pub open spec fn agree_at(a: Map<nat, (bool, TransactionOutput)>, b: Map<nat, (bool, TransactionOutput)>, k: nat) -> bool {
    &&& a.contains_key(k) == b.contains_key(k)
    &&& a.contains_key(k) ==> a[k] == b[k]
}

/// An update took `m1` to `r1` and `m2` to `r2` touching only the keys `t`,
/// as seen at `k`: at a touched key the results agree whatever the tables
/// were; at any other key each result keeps what its table held.
pub open spec fn touches_only(
    m1: Map<nat, (bool, TransactionOutput)>,
    m2: Map<nat, (bool, TransactionOutput)>,
    r1: Map<nat, (bool, TransactionOutput)>,
    r2: Map<nat, (bool, TransactionOutput)>,
    t: Set<nat>,
    k: nat,
) -> bool {
    if t.contains(k) {
        agree_at(r1, r2, k)
    } else {
        agree_at(r1, m1, k) && agree_at(r2, m2, k)
    }
}

/// The keys that `remove_inputs` touches.
pub open spec fn input_keys(inputs: Seq<TransactionInput>) -> Set<nat>
    decreases inputs.len(),
{
    if inputs.len() == 0 {
        Set::empty()
    } else {
        input_keys(inputs.drop_last()).insert(inputs.last().prev_transaction_output_hash@)
    }
}

/// The keys that `insert_outputs` touches.
pub open spec fn output_keys(key: nat, outputs: Seq<TransactionOutput>) -> Set<nat> {
    if outputs.len() == 0 {
        Set::empty()
    } else {
        set![key]
    }
}

/// The keys that `apply_transactions` touches.
pub open spec fn transactions_keys(txs: Seq<Transaction>) -> Set<nat>
    decreases txs.len(),
{
    if txs.len() == 0 {
        Set::empty()
    } else {
        transactions_keys(txs.drop_last()) + (input_keys(txs.last().inputs@) + output_keys(
            transaction_hash(txs.last()),
            txs.last().outputs@,
        ))
    }
}

/// The keys that `apply_blocks` touches.
pub open spec fn blocks_keys(blocks: Seq<Block>) -> Set<nat>
    decreases blocks.len(),
{
    if blocks.len() == 0 {
        Set::empty()
    } else {
        blocks_keys(blocks.drop_last()) + transactions_keys(blocks.last().transactions@)
    }
}

/// Doing nothing touches nothing.
proof fn lemma_frame_none(m1: Map<nat, (bool, TransactionOutput)>, m2: Map<nat, (bool, TransactionOutput)>)
    ensures
        forall|k: nat| #[trigger] touches_only(m1, m2, m1, m2, Set::empty(), k),
{
}

/// One update after another touches the keys either touches.
proof fn lemma_frame_compose(
    m1: Map<nat, (bool, TransactionOutput)>,
    m2: Map<nat, (bool, TransactionOutput)>,
    h1: Map<nat, (bool, TransactionOutput)>,
    h2: Map<nat, (bool, TransactionOutput)>,
    th: Set<nat>,
    g1: Map<nat, (bool, TransactionOutput)>,
    g2: Map<nat, (bool, TransactionOutput)>,
    tg: Set<nat>,
)
    requires
        forall|k: nat| #[trigger] touches_only(m1, m2, h1, h2, th, k),
        forall|k: nat| #[trigger] touches_only(h1, h2, g1, g2, tg, k),
    ensures
        forall|k: nat| #[trigger] touches_only(m1, m2, g1, g2, th + tg, k),
{
    assert forall|k: nat| #[trigger] touches_only(m1, m2, g1, g2, th + tg, k) by {
        assert(touches_only(m1, m2, h1, h2, th, k));
        assert(touches_only(h1, h2, g1, g2, tg, k));
    }
}

proof fn lemma_remove_inputs_frame(
    m1: Map<nat, (bool, TransactionOutput)>,
    m2: Map<nat, (bool, TransactionOutput)>,
    inputs: Seq<TransactionInput>,
)
    ensures
        forall|k: nat|
            #[trigger] touches_only(m1, m2, remove_inputs(m1, inputs), remove_inputs(m2, inputs), input_keys(inputs), k),
    decreases inputs.len(),
{
    if inputs.len() > 0 {
        let init = inputs.drop_last();
        lemma_remove_inputs_frame(m1, m2, init);
        let h = inputs.last().prev_transaction_output_hash@;
        assert forall|k: nat|
            #[trigger] touches_only(m1, m2, remove_inputs(m1, inputs), remove_inputs(m2, inputs), input_keys(inputs), k) by {
            assert(touches_only(m1, m2, remove_inputs(m1, init), remove_inputs(m2, init), input_keys(init), k));
        }
    }
}

proof fn lemma_insert_outputs_frame(
    m1: Map<nat, (bool, TransactionOutput)>,
    m2: Map<nat, (bool, TransactionOutput)>,
    key: nat,
    outputs: Seq<TransactionOutput>,
)
    ensures
        forall|k: nat|
            #[trigger] touches_only(m1, m2, insert_outputs(m1, key, outputs), insert_outputs(m2, key, outputs), output_keys(key, outputs), k),
    decreases outputs.len(),
{
    if outputs.len() > 0 {
        let init = outputs.drop_last();
        lemma_insert_outputs_frame(m1, m2, key, init);
        assert forall|k: nat|
            #[trigger] touches_only(m1, m2, insert_outputs(m1, key, outputs), insert_outputs(m2, key, outputs), output_keys(key, outputs), k) by {
            assert(touches_only(m1, m2, insert_outputs(m1, key, init), insert_outputs(m2, key, init), output_keys(key, init), k));
        }
    }
}

proof fn lemma_apply_transactions_frame(
    m1: Map<nat, (bool, TransactionOutput)>,
    m2: Map<nat, (bool, TransactionOutput)>,
    txs: Seq<Transaction>,
)
    ensures
        forall|k: nat|
            #[trigger] touches_only(m1, m2, apply_transactions(m1, txs), apply_transactions(m2, txs), transactions_keys(txs), k),
    decreases txs.len(),
{
    if txs.len() == 0 {
        lemma_frame_none(m1, m2);
    } else {
        let init = txs.drop_last();
        let tx = txs.last();
        lemma_apply_transactions_frame(m1, m2, init);
        let a1 = apply_transactions(m1, init);
        let a2 = apply_transactions(m2, init);
        lemma_remove_inputs_frame(a1, a2, tx.inputs@);
        let b1 = remove_inputs(a1, tx.inputs@);
        let b2 = remove_inputs(a2, tx.inputs@);
        lemma_insert_outputs_frame(b1, b2, transaction_hash(tx), tx.outputs@);
        lemma_frame_compose(
            a1,
            a2,
            b1,
            b2,
            input_keys(tx.inputs@),
            apply_transaction(a1, tx),
            apply_transaction(a2, tx),
            output_keys(transaction_hash(tx), tx.outputs@),
        );
        lemma_frame_compose(
            m1,
            m2,
            a1,
            a2,
            transactions_keys(init),
            apply_transaction(a1, tx),
            apply_transaction(a2, tx),
            input_keys(tx.inputs@) + output_keys(transaction_hash(tx), tx.outputs@),
        );
    }
}

proof fn lemma_apply_blocks_frame(
    m1: Map<nat, (bool, TransactionOutput)>,
    m2: Map<nat, (bool, TransactionOutput)>,
    blocks: Seq<Block>,
)
    ensures
        forall|k: nat|
            #[trigger] touches_only(m1, m2, apply_blocks(m1, blocks), apply_blocks(m2, blocks), blocks_keys(blocks), k),
    decreases blocks.len(),
{
    if blocks.len() == 0 {
        lemma_frame_none(m1, m2);
    } else {
        let init = blocks.drop_last();
        let txs = blocks.last().transactions@;
        lemma_apply_blocks_frame(m1, m2, init);
        let a1 = apply_blocks(m1, init);
        let a2 = apply_blocks(m2, init);
        lemma_apply_transactions_frame(a1, a2, txs);
        lemma_frame_compose(
            m1,
            m2,
            a1,
            a2,
            blocks_keys(init),
            apply_transactions(a1, txs),
            apply_transactions(a2, txs),
            transactions_keys(txs),
        );
    }
}

/// Replaying the blocks on the table they left changes nothing: rebuilding
/// the unspent outputs twice gives what rebuilding once gives.
pub proof fn lemma_apply_blocks_idempotent(m: Map<nat, (bool, TransactionOutput)>, blocks: Seq<Block>)
    ensures
        apply_blocks(apply_blocks(m, blocks), blocks) == apply_blocks(m, blocks),
{
    let r1 = apply_blocks(m, blocks);
    let r2 = apply_blocks(r1, blocks);
    lemma_apply_blocks_frame(r1, m, blocks);
    assert forall|k: nat| #[trigger] agree_at(r2, r1, k) by {
        assert(touches_only(r1, m, r2, r1, blocks_keys(blocks), k));
    }
    assert(r2.dom() =~= r1.dom()) by {
        assert forall|k: nat| r2.dom().contains(k) <==> r1.dom().contains(k) by {
            assert(agree_at(r2, r1, k));
        }
    }
    assert(r2 =~= r1) by {
        assert forall|k: nat| r2.dom().contains(k) implies r2[k] == r1[k] by {
            assert(agree_at(r2, r1, k));
        }
    }
}

/// A mempool entry that arrived more than `MAX_MEMPOOL_TRANSACTION_AGE`
/// seconds before `now`.
pub open spec fn expired(now: Timestamp, entry: (Timestamp, Transaction)) -> bool {
    nanos_between(now, entry.0) > MAX_MEMPOOL_TRANSACTION_AGE as int * 1_000_000_000
}

/// The entries of `pool` that have not expired at `now`, in order.
pub open spec fn unexpired(pool: Seq<(Timestamp, Transaction)>, now: Timestamp) -> Seq<
    (Timestamp, Transaction),
>
    decreases pool.len(),
{
    if pool.len() == 0 {
        pool
    } else if expired(now, pool.last()) {
        unexpired(pool.drop_last(), now)
    } else {
        unexpired(pool.drop_last(), now).push(pool.last())
    }
}


/// The hashes that the expired entries of `pool` spend, in order.
pub open spec fn expired_inputs(pool: Seq<(Timestamp, Transaction)>, now: Timestamp) -> Seq<nat>
    decreases pool.len(),
{
    if pool.len() == 0 {
        seq![]
    } else if expired(now, pool.last()) {
        expired_inputs(pool.drop_last(), now) + input_hashes(pool.last().1.inputs@)
    } else {
        expired_inputs(pool.drop_last(), now)
    }
}

/// The table with the mark cleared on each of `hashes` that it holds.
pub open spec fn unmark(m: Map<nat, (bool, TransactionOutput)>, hashes: Seq<nat>) -> Map<
    nat,
    (bool, TransactionOutput),
>
    decreases hashes.len(),
{
    if hashes.len() == 0 {
        m
    } else {
        let m2 = unmark(m, hashes.drop_last());
        let h = hashes.last();
        if m2.contains_key(h) {
            m2.insert(h, (false, m2[h].1))
        } else {
            m2
        }
    }
}

/// Checks the inputs of a transaction offered to the mempool, in order: each
/// must spend a known output (else `InvalidTransactionInput`), none twice
/// (else `InvalidTransaction`). The error, or `None` when all pass.
pub open spec fn check_new_inputs(
    m: Map<nat, (bool, TransactionOutput)>,
    inputs: Seq<TransactionInput>,
    known: Seq<nat>,
) -> Option<CoinError>
    decreases inputs.len(),
{
    if inputs.len() == 0 {
        None
    } else {
        let h = inputs[0].prev_transaction_output_hash@;
        if !m.contains_key(h) {
            Some(CoinError::InvalidTransactionInput)
        } else if known.contains(h) {
            Some(CoinError::InvalidTransaction)
        } else {
            check_new_inputs(m, inputs.skip(1), known.push(h))
        }
    }
}

/// `tx` has an output whose hash is `h`.
pub open spec fn creates(tx: Transaction, h: nat) -> bool {
    exists|j: int| 0 <= j < tx.outputs@.len() && output_hash(#[trigger] tx.outputs@[j]) == h
}

/// The index of the first entry of `pool` whose transaction creates `h`.
pub open spec fn first_creator(pool: Seq<(Timestamp, Transaction)>, h: nat) -> Option<int>
    decreases pool.len(),
{
    if pool.len() == 0 {
        None
    } else if creates(pool[0].1, h) {
        Some(0)
    } else {
        match first_creator(pool.skip(1), h) {
            Some(i) => Some(i + 1),
            None => None,
        }
    }
}

/// Frees what the new transaction's inputs need, input by input: where an
/// input spends an output marked as spent in the mempool, the first mempool
/// transaction that creates that output leaves the mempool and the outputs
/// it spends are unmarked. The table and the mempool afterwards.
pub open spec fn evict(
    m: Map<nat, (bool, TransactionOutput)>,
    pool: Seq<(Timestamp, Transaction)>,
    inputs: Seq<TransactionInput>,
) -> (Map<nat, (bool, TransactionOutput)>, Seq<(Timestamp, Transaction)>)
    decreases inputs.len(),
{
    if inputs.len() == 0 {
        (m, pool)
    } else {
        let h = inputs[0].prev_transaction_output_hash@;
        if m.contains_key(h) && m[h].0 {
            match first_creator(pool, h) {
                Some(idx) => evict(
                    unmark(m, input_hashes(pool[idx].1.inputs@)),
                    pool.remove(idx),
                    inputs.skip(1),
                ),
                None => evict(m, pool, inputs.skip(1)),
            }
        } else {
            evict(m, pool, inputs.skip(1))
        }
    }
}

/// The sum of the amounts of the outputs that `inputs` spend.
pub open spec fn spent_sum(m: Map<nat, (bool, TransactionOutput)>, inputs: Seq<TransactionInput>) -> nat
    decreases inputs.len(),
{
    if inputs.len() == 0 {
        0
    } else {
        spent_sum(m, inputs.drop_last()) + m[inputs.last().prev_transaction_output_hash@].1.value as nat
    }
}

/// The fee of `tx` can be computed: every output it spends is known, and the
/// sums fit in 64 bits with the outputs no more than the inputs.
pub open spec fn fee_defined(m: Map<nat, (bool, TransactionOutput)>, tx: Transaction) -> bool {
    &&& forall|i: int|
        0 <= i < tx.inputs@.len() ==> m.contains_key(
            #[trigger] tx.inputs@[i].prev_transaction_output_hash@,
        )
    &&& spent_sum(m, tx.inputs@) <= u64::MAX
    &&& value_sum(tx.outputs@) <= u64::MAX
    &&& value_sum(tx.outputs@) <= spent_sum(m, tx.inputs@)
}

/// The fee that `tx` leaves to the miner: what it spends minus what it creates.
pub open spec fn fee(m: Map<nat, (bool, TransactionOutput)>, tx: Transaction) -> int {
    spent_sum(m, tx.inputs@) - value_sum(tx.outputs@)
}

/// `e` inserted into `s` after every element at its end whose fee is at most
/// that of `e`.
pub open spec fn insert_by_fee(
    s: Seq<(Timestamp, Transaction)>,
    e: (Timestamp, Transaction),
    m: Map<nat, (bool, TransactionOutput)>,
) -> Seq<(Timestamp, Transaction)>
    decreases s.len(),
{
    if s.len() == 0 {
        seq![e]
    } else if fee(m, s.last().1) <= fee(m, e.1) {
        s.push(e)
    } else {
        insert_by_fee(s.drop_last(), e, m).push(s.last())
    }
}

/// `s` sorted by fee, lowest first, entries of equal fee in their order: a
/// stable sort.
pub open spec fn sort_by_fee(s: Seq<(Timestamp, Transaction)>, m: Map<nat, (bool, TransactionOutput)>) -> Seq<
    (Timestamp, Transaction),
>
    decreases s.len(),
{
    if s.len() == 0 {
        s
    } else {
        insert_by_fee(sort_by_fee(s.drop_last(), m), s.last(), m)
    }
}

/// Offering `tx` to the mempool can finish: once its inputs pass, every fee
/// that the sort of the mempool reads can be computed (the sort reads none
/// when the mempool holds one transaction).
pub open spec fn mempool_insert_defined(
    m: Map<nat, (bool, TransactionOutput)>,
    pool: Seq<(Timestamp, Transaction)>,
    tx: Transaction,
) -> bool {
    check_new_inputs(m, tx.inputs@, seq![]) is None ==> {
        let (m2, p2) = evict(m, pool, tx.inputs@);
        p2.len() > 0 ==> (fee_defined(m2, tx) && forall|i: int|
            0 <= i < p2.len() ==> fee_defined(m2, #[trigger] p2[i].1))
    }
}

/// The first creator of `h` in `pool` is the first entry that creates it.
proof fn lemma_first_creator(pool: Seq<(Timestamp, Transaction)>, h: nat, i: int)
    requires
        0 <= i <= pool.len(),
        forall|j: int| 0 <= j < i ==> !creates(#[trigger] pool[j].1, h),
        i < pool.len() ==> creates(pool[i].1, h),
    ensures
        first_creator(pool, h) == (if i < pool.len() {
            Some(i)
        } else {
            None::<int>
        }),
    decreases i,
{
    if i > 0 {
        let t = pool.skip(1);
        assert forall|j: int| 0 <= j < i - 1 implies !creates(#[trigger] t[j].1, h) by {
            assert(t[j] == pool[j + 1]);
        }
        if i < pool.len() {
            assert(t[i - 1] == pool[i]);
        }
        lemma_first_creator(t, h, i - 1);
        assert(!creates(pool[0].1, h));
    }
}

/// `insert_by_fee` puts `e` at `j` when every element from `j` on has a
/// higher fee and the one before `j`, if any, does not.
proof fn lemma_insert_by_fee(
    s: Seq<(Timestamp, Transaction)>,
    e: (Timestamp, Transaction),
    m: Map<nat, (bool, TransactionOutput)>,
    j: int,
)
    requires
        0 <= j <= s.len(),
        forall|k: int| j <= k < s.len() ==> fee(m, #[trigger] s[k].1) > fee(m, e.1),
        j > 0 ==> fee(m, s[j - 1].1) <= fee(m, e.1),
    ensures
        insert_by_fee(s, e, m) == s.take(j) + seq![e] + s.skip(j),
    decreases s.len(),
{
    if s.len() == 0 {
        assert(s.take(j) + seq![e] + s.skip(j) =~= seq![e]);
    } else if j == s.len() {
        assert(s.take(j) + seq![e] + s.skip(j) =~= s.push(e));
    } else {
        let t = s.drop_last();
        assert forall|k: int| j <= k < t.len() implies fee(m, #[trigger] t[k].1) > fee(m, e.1) by {
            assert(t[k] == s[k]);
        }
        if j > 0 {
            assert(t[j - 1] == s[j - 1]);
        }
        lemma_insert_by_fee(t, e, m, j);
        assert(fee(m, s[s.len() - 1].1) > fee(m, e.1));
        assert((t.take(j) + seq![e] + t.skip(j)).push(s.last()) =~= s.take(j) + seq![e] + s.skip(j));
    }
}

/// The spent sum over a prefix of the inputs is at most that over all of them.
proof fn lemma_spent_sum_prefix(m: Map<nat, (bool, TransactionOutput)>, s: Seq<TransactionInput>, k: int)
    requires
        0 <= k <= s.len(),
    ensures
        spent_sum(m, s.take(k)) <= spent_sum(m, s),
    decreases s.len(),
{
    if k < s.len() {
        lemma_spent_sum_prefix(m, s.drop_last(), k);
        assert(s.drop_last().take(k) =~= s.take(k));
    } else {
        assert(s.take(k) =~= s);
    }
}

/// Whether `tx` has an output whose hash is `h`.
fn creates_hash(tx: &Transaction, h: &crate::sha256::Hash) -> (r: bool)
    ensures
        r == creates(*tx, h@),
{
    let mut j: usize = 0;
    while j < tx.outputs.len()
        invariant
            j <= tx.outputs@.len(),
            forall|k: int| 0 <= k < j ==> output_hash(#[trigger] tx.outputs@[k]) != h@,
        decreases tx.outputs@.len() - j,
    {
        let oh = tx.outputs[j].hash();
        if oh.eq(h) {
            assert(output_hash(tx.outputs@[j as int]) == h@);
            return true;
        }
        j = j + 1;
    }
    false
}

/// The index of the first entry of `pool` whose transaction creates `h`.
fn find_creator(pool: &Vec<(Timestamp, Transaction)>, h: &crate::sha256::Hash) -> (r: Option<usize>)
    ensures
        match r {
            Some(i) => i < pool@.len() && first_creator(pool@, h@) == Some(i as int),
            None => first_creator(pool@, h@) is None,
        },
{
    let mut i: usize = 0;
    while i < pool.len()
        invariant
            i <= pool@.len(),
            forall|j: int| 0 <= j < i ==> !creates(#[trigger] pool@[j].1, h@),
        decreases pool@.len() - i,
    {
        if creates_hash(&pool[i].1, h) {
            proof {
                lemma_first_creator(pool@, h@, i as int);
            }
            return Some(i);
        }
        i = i + 1;
    }
    proof {
        lemma_first_creator(pool@, h@, i as int);
    }
    None
}

/// Clears the mark on each output that `inputs` spend and the table holds.
fn unmark_inputs(utxos: &mut OutputMap<(bool, TransactionOutput)>, inputs: &Vec<TransactionInput>)
    requires
        old(utxos).wf(),
    ensures
        final(utxos).wf(),
        final(utxos)@ == unmark(old(utxos)@, input_hashes(inputs@)),
{
    let ghost m0 = utxos@;
    let ghost hs = input_hashes(inputs@);
    let mut k: usize = 0;
    assert(hs.take(0) =~= Seq::<nat>::empty());
    while k < inputs.len()
        invariant
            k <= inputs@.len(),
            hs == input_hashes(inputs@),
            utxos.wf(),
            utxos@ == unmark(m0, hs.take(k as int)),
        decreases inputs@.len() - k,
    {
        let h = inputs[k].prev_transaction_output_hash;
        assert(hs.take(k + 1).drop_last() =~= hs.take(k as int));
        assert(hs.take(k + 1).last() == h@);
        match utxos.get(&h) {
            Some(entry) => {
                utxos.insert(h, (false, entry.1));
            },
            None => {},
        }
        k = k + 1;
    }
    assert(hs.take(k as int) =~= hs);
}

/// The fee of `tx`: what it spends minus what it creates.
fn tx_fee(utxos: &OutputMap<(bool, TransactionOutput)>, tx: &Transaction) -> (r: u64)
    requires
        utxos.wf(),
        fee_defined(utxos@, *tx),
    ensures
        r == fee(utxos@, *tx),
{
    let mut sum: u64 = 0;
    let mut k: usize = 0;
    assert(tx.inputs@.take(0) =~= Seq::<TransactionInput>::empty());
    while k < tx.inputs.len()
        invariant
            k <= tx.inputs@.len(),
            utxos.wf(),
            fee_defined(utxos@, *tx),
            sum == spent_sum(utxos@, tx.inputs@.take(k as int)),
        decreases tx.inputs@.len() - k,
    {
        let h = &tx.inputs[k].prev_transaction_output_hash;
        assert(utxos@.contains_key(tx.inputs@[k as int].prev_transaction_output_hash@));
        let entry = utxos.get(h).unwrap();
        assert(tx.inputs@.take(k + 1).drop_last() =~= tx.inputs@.take(k as int));
        proof {
            lemma_spent_sum_prefix(utxos@, tx.inputs@, k + 1);
        }
        sum = sum + entry.1.value;
        k = k + 1;
    }
    assert(tx.inputs@.take(k as int) =~= tx.inputs@);
    let out = sum_values(&tx.outputs);
    sum - out
}

/// Whether the fee of `tx` can be computed, as `fee_defined` says.
fn fee_is_defined(utxos: &OutputMap<(bool, TransactionOutput)>, tx: &Transaction) -> (r: bool)
    requires
        utxos.wf(),
    ensures
        r == fee_defined(utxos@, *tx),
{
    let ghost m = utxos@;
    let ghost ins = tx.inputs@;
    let mut sum: u64 = 0;
    let mut k: usize = 0;
    assert(ins.take(0) =~= Seq::<TransactionInput>::empty());
    while k < tx.inputs.len()
        invariant
            k <= ins.len(),
            ins == tx.inputs@,
            m == utxos@,
            utxos.wf(),
            forall|i: int| 0 <= i < k ==> m.contains_key(#[trigger] ins[i].prev_transaction_output_hash@),
            sum == spent_sum(m, ins.take(k as int)),
        decreases ins.len() - k,
    {
        let h = &tx.inputs[k].prev_transaction_output_hash;
        assert(ins.take(k + 1).drop_last() =~= ins.take(k as int));
        match utxos.get(h) {
            None => {
                return false;
            },
            Some(entry) => match sum.checked_add(entry.1.value) {
                None => {
                    proof {
                        lemma_spent_sum_prefix(m, ins, k + 1);
                    }
                    return false;
                },
                Some(s2) => {
                    sum = s2;
                },
            },
        }
        k = k + 1;
    }
    assert(ins.take(k as int) =~= ins);
    let ghost outs = tx.outputs@;
    let mut out: u64 = 0;
    let mut j: usize = 0;
    assert(outs.take(0) =~= Seq::<TransactionOutput>::empty());
    while j < tx.outputs.len()
        invariant
            j <= outs.len(),
            outs == tx.outputs@,
            out == value_sum(outs.take(j as int)),
        decreases outs.len() - j,
    {
        assert(outs.take(j + 1).drop_last() =~= outs.take(j as int));
        match out.checked_add(tx.outputs[j].value) {
            None => {
                proof {
                    lemma_value_sum_prefix(outs, j + 1);
                }
                return false;
            },
            Some(o2) => {
                out = o2;
            },
        }
        j = j + 1;
    }
    assert(outs.take(j as int) =~= outs);
    out <= sum
}

/// Whether the fee of every transaction of `pool` can be computed.
fn pool_fees_defined(utxos: &OutputMap<(bool, TransactionOutput)>, pool: &Vec<(Timestamp, Transaction)>) -> (r: bool)
    requires
        utxos.wf(),
    ensures
        r == forall|i: int| 0 <= i < pool@.len() ==> fee_defined(utxos@, #[trigger] pool@[i].1),
{
    let mut i: usize = 0;
    while i < pool.len()
        invariant
            i <= pool@.len(),
            utxos.wf(),
            forall|j: int| 0 <= j < i ==> fee_defined(utxos@, #[trigger] pool@[j].1),
        decreases pool@.len() - i,
    {
        if !fee_is_defined(utxos, &pool[i].1) {
            return false;
        }
        i = i + 1;
    }
    true
}

/// `pool` sorted by fee as `sort_by_fee` says.
fn sort_pool(pool: Vec<(Timestamp, Transaction)>, utxos: &OutputMap<(bool, TransactionOutput)>) -> (r: Vec<
    (Timestamp, Transaction),
>)
    requires
        utxos.wf(),
        forall|i: int| 0 <= i < pool@.len() ==> fee_defined(utxos@, #[trigger] pool@[i].1),
    ensures
        r@ == sort_by_fee(pool@, utxos@),
{
    let ghost orig = pool@;
    let ghost m = utxos@;
    let mut rest = pool;
    let mut sorted: Vec<(Timestamp, Transaction)> = Vec::new();
    let mut keys: Vec<u64> = Vec::new();
    let n: usize = rest.len();
    let mut i: usize = 0;
    assert(orig.take(0) =~= Seq::<(Timestamp, Transaction)>::empty());
    assert(orig.skip(0) =~= orig);
    while rest.len() > 0
        invariant
            i <= orig.len(),
            n == orig.len(),
            i + rest@.len() == orig.len(),
            rest@ == orig.skip(i as int),
            m == utxos@,
            utxos.wf(),
            forall|j: int| 0 <= j < orig.len() ==> fee_defined(m, #[trigger] orig[j].1),
            sorted@ == sort_by_fee(orig.take(i as int), m),
            keys@.len() == sorted@.len(),
            forall|j: int| 0 <= j < keys@.len() ==> keys@[j] == fee(m, #[trigger] sorted@[j].1),
        decreases rest@.len(),
    {
        let e = rest.remove(0);
        assert(e == orig[i as int]);
        assert(rest@ =~= orig.skip(i + 1));
        assert(orig.take(i + 1).drop_last() =~= orig.take(i as int));
        let key = tx_fee(utxos, &e.1);
        let mut j: usize = sorted.len();
        while j > 0 && keys[j - 1] > key
            invariant
                j <= sorted@.len(),
                keys@.len() == sorted@.len(),
                forall|k: int| 0 <= k < keys@.len() ==> keys@[k] == fee(m, #[trigger] sorted@[k].1),
                forall|k: int| j <= k < sorted@.len() ==> fee(m, #[trigger] sorted@[k].1) > fee(m, e.1),
                key == fee(m, e.1),
            decreases j,
        {
            j = j - 1;
        }
        proof {
            if j > 0 {
                assert(keys@[j - 1] == fee(m, sorted@[j - 1].1));
            }
            lemma_insert_by_fee(sorted@, e, m, j as int);
        }
        let ghost before = sorted@;
        let ghost before_keys = keys@;
        sorted.insert(j, e);
        keys.insert(j, key);
        assert(sorted@ =~= before.take(j as int) + seq![e] + before.skip(j as int));
        assert forall|k: int| 0 <= k < keys@.len() implies keys@[k] == fee(m, #[trigger] sorted@[k].1) by {
            if k < j {
                assert(keys@[k] == before_keys[k] && sorted@[k] == before[k]);
            } else if k > j {
                assert(keys@[k] == before_keys[k - 1] && sorted@[k] == before[k - 1]);
            }
        }
        i = i + 1;
    }
    assert(orig.take(i as int) =~= orig);
    sorted
}

/// What offering `tx` to the mempool of `pre` at `now` leaves: a refusal with
/// the chain unchanged, or the table after `evict` and the mempool after
/// `evict` with `(now, tx)` appended, sorted by fee.
pub open spec fn mempool_added(pre: Blockchain, post: Blockchain, tx: Transaction, now: Timestamp, r: Result<
    (),
    CoinError,
>) -> bool {
    &&& post.block_seq() == pre.block_seq()
    &&& post.target_spec() == pre.target_spec()
    &&& match check_new_inputs(pre.utxo_map(), tx.inputs@, seq![]) {
        Some(e) => r == Err::<(), CoinError>(e) && post.utxo_map() == pre.utxo_map()
            && post.mempool_seq() == pre.mempool_seq(),
        None => {
            let (m2, p2) = evict(pre.utxo_map(), pre.mempool_seq(), tx.inputs@);
            &&& r is Ok
            &&& post.utxo_map() == m2
            &&& post.mempool_seq() == sort_by_fee(p2.push((now, tx)), m2)
        },
    }
}

/// Every block of `blocks` links to the one before it: the first points to
/// the zero hash, and each later one points to the hash of its predecessor,
/// has a header hash below the easiest target, carries the Merkle root of its
/// transactions, and comes strictly after its predecessor.
pub open spec fn chain_linked(blocks: Seq<Block>) -> bool {
    &&& blocks.len() > 0 ==> blocks[0].header.prev_block_hash@ == 0
    &&& forall|i: int|
        #![trigger blocks[i]]
        0 < i < blocks.len() ==> {
            &&& blocks[i].header.prev_block_hash@ == block_hash(blocks[i - 1])
            &&& header_hash(blocks[i].header) < min_target_value()
            &&& merkle_root_of(transaction_hashes(blocks[i].transactions@))
                == blocks[i].header.merkle_root.0@
            &&& !not_after(blocks[i].header.timestamp, blocks[i - 1].header.timestamp)
        }
}

/// A block that a chain with a target no easier than the easiest accepts
/// keeps the chain linked.
pub proof fn lemma_accepted_block_keeps_chain_linked(blocks: Seq<Block>, target: U256, b: Block)
    requires
        chain_linked(blocks),
        target@ <= min_target_value(),
        block_accepted(blocks, target, b),
    ensures
        chain_linked(blocks.push(b)),
{
    let s = blocks.push(b);
    assert forall|i: int| #![trigger s[i]] 0 < i < s.len() implies {
        &&& s[i].header.prev_block_hash@ == block_hash(s[i - 1])
        &&& header_hash(s[i].header) < min_target_value()
        &&& merkle_root_of(transaction_hashes(s[i].transactions@)) == s[i].header.merkle_root.0@
        &&& !not_after(s[i].header.timestamp, s[i - 1].header.timestamp)
    } by {
        if i < blocks.len() {
            assert(s[i] == blocks[i] && s[i - 1] == blocks[i - 1]);
        }
    }
}

/// Mining and acceptance check the same proof of work: a block mined on its
/// header against the chain's current target (as `mine_blocks` promises on
/// success), which points to the last block, carries the Merkle root of its
/// transactions and comes after the last block, is accepted.
pub proof fn lemma_mined_block_accepted(blocks: Seq<Block>, target: U256, b: Block)
    requires
        blocks.len() > 0,
        b.header.target == target,
        meets_target(b.header, b.header.target),
        b.header.prev_block_hash@ == block_hash(blocks.last()),
        merkle_root_of(transaction_hashes(b.transactions@)) == b.header.merkle_root.0@,
        !not_after(b.header.timestamp, blocks.last().header.timestamp),
    ensures
        block_accepted(blocks, target, b),
{
}

/// The target changes only when an adjustment is due, and then it depends on
/// the current target and on the times of the first and the last of the
/// last `DIFFICULTY_UPDATE_INTERVAL` blocks alone: chains of the same length
/// that agree on those two times get the same new target, whatever their
/// other blocks hold.
pub proof fn lemma_retarget_reads_window_ends(b1: Seq<Block>, b2: Seq<Block>, target: U256)
    requires
        b1.len() == b2.len(),
        retarget_due(b1) ==> {
            &&& b1[b1.len() - DIFFICULTY_UPDATE_INTERVAL].header.timestamp
                == b2[b2.len() - DIFFICULTY_UPDATE_INTERVAL].header.timestamp
            &&& b1[b1.len() - 1].header.timestamp == b2[b2.len() - 1].header.timestamp
        },
    ensures
        adjusted_target(b1, target) == adjusted_target(b2, target),
        !retarget_due(b1) ==> adjusted_target(b1, target) == Some(target@),
{
}

/// When an adjustment is due, the time it measures runs from the block
/// `DIFFICULTY_UPDATE_INTERVAL - 1` places before the last one to the last.
pub proof fn lemma_retarget_window(blocks: Seq<Block>)
    requires
        retarget_due(blocks),
    ensures
        blocks.len() >= DIFFICULTY_UPDATE_INTERVAL,
        retarget_seconds(blocks) == seconds_between(
            blocks[blocks.len() - 1].header.timestamp,
            blocks[blocks.len() - DIFFICULTY_UPDATE_INTERVAL].header.timestamp,
        ),
{
    let n = blocks.len() as int;
    assert(n >= 50) by (nonlinear_arith)
        requires
            n > 0,
            n % 50 == 0,
    ;
}

/// A transaction that the mempool takes in spends only outputs that were
/// unspent before, none twice.
pub proof fn lemma_mempool_inputs_known(pre: Blockchain, post: Blockchain, tx: Transaction, now: Timestamp, r: Result<(), CoinError>)
    requires
        mempool_added(pre, post, tx, now, r),
        r is Ok,
    ensures
        forall|i: int|
            0 <= i < tx.inputs@.len() ==> pre.utxo_map().contains_key(
                #[trigger] tx.inputs@[i].prev_transaction_output_hash@,
            ),
        input_hashes(tx.inputs@).no_duplicates(),
{
    let e = Seq::<nat>::empty();
    lemma_check_new_inputs_none(pre.utxo_map(), tx.inputs@, e);
    assert(e + input_hashes(tx.inputs@) =~= input_hashes(tx.inputs@));
    assert forall|i: int|
        0 <= i < tx.inputs@.len() implies pre.utxo_map().contains_key(
            #[trigger] tx.inputs@[i].prev_transaction_output_hash@,
        ) by {
        assert(input_hashes(tx.inputs@)[i] == tx.inputs@[i].prev_transaction_output_hash@);
    }
}

proof fn lemma_check_new_inputs_none(
    m: Map<nat, (bool, TransactionOutput)>,
    inputs: Seq<TransactionInput>,
    known: Seq<nat>,
)
    requires
        check_new_inputs(m, inputs, known) is None,
        known.no_duplicates(),
    ensures
        (known + input_hashes(inputs)).no_duplicates(),
        forall|k: int| 0 <= k < inputs.len() ==> m.contains_key(#[trigger] input_hashes(inputs)[k]),
    decreases inputs.len(),
{
    if inputs.len() == 0 {
        assert(known + input_hashes(inputs) =~= known);
    } else {
        let h = inputs[0].prev_transaction_output_hash@;
        let rest = inputs.skip(1);
        lemma_push_no_duplicates(known, h);
        lemma_check_new_inputs_none(m, rest, known.push(h));
        assert(known + input_hashes(inputs) =~= known.push(h) + input_hashes(rest));
        assert forall|k: int| 0 <= k < inputs.len() implies m.contains_key(#[trigger] input_hashes(inputs)[k]) by {
            if k > 0 {
                assert(input_hashes(inputs)[k] == input_hashes(rest)[k - 1]);
            }
        }
    }
}

/// In a linked chain every block comes strictly after every earlier block.
pub proof fn lemma_chain_times_increase(blocks: Seq<Block>, i: int, j: int)
    requires
        chain_linked(blocks),
        0 <= i < j < blocks.len(),
    ensures
        !not_after(blocks[j].header.timestamp, blocks[i].header.timestamp),
    decreases j - i,
{
    assert(blocks[j] == blocks[j]);
    if j - 1 > i {
        lemma_chain_times_increase(blocks, i, j - 1);
    }
}

/// In a linked chain whose timestamps hold fewer than 10^9 nanoseconds, the
/// time that a due retarget measures is never negative.
pub proof fn lemma_retarget_seconds_nonnegative(blocks: Seq<Block>)
    requires
        chain_linked(blocks),
        retarget_due(blocks),
        forall|i: int| 0 <= i < blocks.len() ==> (#[trigger] blocks[i]).header.timestamp.nanos < 1_000_000_000,
    ensures
        retarget_seconds(blocks) >= 0,
{
    let n = blocks.len() as int;
    assert(n >= 50) by (nonlinear_arith)
        requires
            n > 0,
            n % 50 == 0,
    ;
    let start = n - 50;
    lemma_chain_times_increase(blocks, start, n - 1);
    let a = blocks[start].header.timestamp;
    let b = blocks[n - 1].header.timestamp;
    lemma_later_seconds_nonnegative(a, b);
}

/// Of two timestamps with fewer than 10^9 nanoseconds, the whole seconds from
/// the earlier to the later are never negative.
proof fn lemma_later_seconds_nonnegative(a: Timestamp, b: Timestamp)
    requires
        a.nanos < 1_000_000_000,
        b.nanos < 1_000_000_000,
        !not_after(b, a),
    ensures
        seconds_between(b, a) >= 0,
{
    assert(nanos_between(b, a) > 0) by (nonlinear_arith)
        requires
            a.nanos < 1_000_000_000,
            b.nanos < 1_000_000_000,
            b.seconds > a.seconds || (b.seconds == a.seconds && b.nanos > a.nanos),
            nanos_between(b, a) == (b.seconds - a.seconds) * 1_000_000_000 + b.nanos - a.nanos,
    ;
}

/// `s` is sorted by fee, lowest first.
pub open spec fn sorted_by_fee(s: Seq<(Timestamp, Transaction)>, m: Map<nat, (bool, TransactionOutput)>) -> bool {
    forall|i: int, j: int| 0 <= i < j < s.len() ==> fee(m, #[trigger] s[i].1) <= fee(m, #[trigger] s[j].1)
}

/// Where in a sorted sequence `insert_by_fee` puts a new element.
proof fn insert_position(
    s: Seq<(Timestamp, Transaction)>,
    e: (Timestamp, Transaction),
    m: Map<nat, (bool, TransactionOutput)>,
) -> (j: int)
    requires
        sorted_by_fee(s, m),
    ensures
        0 <= j <= s.len(),
        forall|k: int| j <= k < s.len() ==> fee(m, #[trigger] s[k].1) > fee(m, e.1),
        j > 0 ==> fee(m, s[j - 1].1) <= fee(m, e.1),
    decreases s.len(),
{
    if s.len() == 0 {
        0
    } else if fee(m, s.last().1) <= fee(m, e.1) {
        s.len() as int
    } else {
        let t = s.drop_last();
        assert(sorted_by_fee(t, m)) by {
            assert forall|i: int, j: int| 0 <= i < j < t.len() implies fee(m, #[trigger] t[i].1) <= fee(
                m,
                #[trigger] t[j].1,
            ) by {
                assert(t[i] == s[i] && t[j] == s[j]);
            }
        }
        let j = insert_position(t, e, m);
        assert forall|k: int| j <= k < s.len() implies fee(m, #[trigger] s[k].1) > fee(m, e.1) by {
            if k < t.len() {
                assert(t[k] == s[k]);
            }
        }
        if j > 0 {
            assert(t[j - 1] == s[j - 1]);
        }
        j
    }
}

/// Inserting by fee into a sorted sequence keeps it sorted and adds exactly
/// the new element.
proof fn lemma_insert_by_fee_sorted(
    s: Seq<(Timestamp, Transaction)>,
    e: (Timestamp, Transaction),
    m: Map<nat, (bool, TransactionOutput)>,
)
    requires
        sorted_by_fee(s, m),
    ensures
        sorted_by_fee(insert_by_fee(s, e, m), m),
        insert_by_fee(s, e, m).to_multiset() == s.to_multiset().insert(e),
{
    let j = insert_position(s, e, m);
    lemma_insert_by_fee(s, e, m, j);
    let r = insert_by_fee(s, e, m);
    assert(r =~= s.insert(j, e));
    vstd::seq_lib::to_multiset_insert(s, j, e);
    assert forall|a: int, b: int| 0 <= a < b < r.len() implies fee(m, #[trigger] r[a].1) <= fee(
        m,
        #[trigger] r[b].1,
    ) by {
        if b < j {
            assert(r[a] == s[a] && r[b] == s[b]);
        } else if b == j {
            assert(r[a] == s[a]);
            assert(fee(m, s[a].1) <= fee(m, s[j - 1].1));
        } else if a < j {
            assert(r[a] == s[a] && r[b] == s[b - 1]);
        } else if a == j {
            assert(r[b] == s[b - 1]);
        } else {
            assert(r[a] == s[a - 1] && r[b] == s[b - 1]);
        }
    }
}

/// Sorting by fee gives a sequence sorted by fee, lowest first, holding the
/// same entries as many times each.
pub proof fn lemma_sort_by_fee(s: Seq<(Timestamp, Transaction)>, m: Map<nat, (bool, TransactionOutput)>)
    ensures
        sorted_by_fee(sort_by_fee(s, m), m),
        sort_by_fee(s, m).to_multiset() == s.to_multiset(),
    decreases s.len(),
{
    if s.len() == 0 {
    } else {
        let t = s.drop_last();
        lemma_sort_by_fee(t, m);
        lemma_insert_by_fee_sorted(sort_by_fee(t, m), s.last(), m);
        assert(s =~= t.push(s.last()));
        vstd::seq_lib::to_multiset_build(t, s.last());
    }
}

/// A transaction that the mempool takes in is in it afterwards, and the
/// mempool is sorted by fee.
pub proof fn lemma_added_transaction_in_mempool(
    pre: Blockchain,
    post: Blockchain,
    tx: Transaction,
    now: Timestamp,
    r: Result<(), CoinError>,
)
    requires
        mempool_added(pre, post, tx, now, r),
        r is Ok,
    ensures
        post.mempool_seq().contains((now, tx)),
        sorted_by_fee(post.mempool_seq(), post.utxo_map()),
{
    let (m2, p2) = evict(pre.utxo_map(), pre.mempool_seq(), tx.inputs@);
    let q = p2.push((now, tx));
    lemma_sort_by_fee(q, m2);
    vstd::seq_lib::to_multiset_build(p2, (now, tx));
    q.to_multiset_ensures();
    p2.to_multiset_ensures();
    post.mempool_seq().to_multiset_ensures();
    assert(q.to_multiset().count((now, tx)) > 0) by {
        broadcast use vstd::multiset::group_multiset_axioms;
    }
    assert(post.mempool_seq().to_multiset().count((now, tx)) > 0);
}

/// After a clean at `now`, no entry left in the mempool has expired, each
/// came from the mempool before, and every entry that had not expired is kept.
pub proof fn lemma_unexpired(pool: Seq<(Timestamp, Transaction)>, now: Timestamp)
    ensures
        forall|k: int| 0 <= k < unexpired(pool, now).len() ==> !expired(now, #[trigger] unexpired(pool, now)[k])
            && pool.contains(unexpired(pool, now)[k]),
        forall|k: int| 0 <= k < pool.len() && !expired(now, #[trigger] pool[k]) ==> unexpired(pool, now).contains(
            pool[k],
        ),
    decreases pool.len(),
{
    if pool.len() > 0 {
        let t = pool.drop_last();
        lemma_unexpired(t, now);
        let u = unexpired(pool, now);
        let ut = unexpired(t, now);
        assert forall|k: int| 0 <= k < u.len() implies !expired(now, #[trigger] u[k]) && pool.contains(u[k]) by {
            if k < ut.len() {
                assert(u[k] == ut[k]);
                let w = choose|w: int| 0 <= w < t.len() && t[w] == ut[k];
                assert(pool[w] == t[w]);
            } else {
                assert(pool[pool.len() - 1] == u[k]);
            }
        }
        assert forall|k: int| 0 <= k < pool.len() && !expired(now, #[trigger] pool[k]) implies u.contains(pool[k]) by {
            if k < t.len() {
                assert(t[k] == pool[k]);
                assert(ut.contains(t[k]));
                let w = choose|w: int| 0 <= w < ut.len() && ut[w] == t[k];
                assert(u[w] == ut[w]);
            } else {
                assert(u[u.len() - 1] == pool[k]);
            }
        }
    }
}

/// The chain.
pub struct Blockchain {
    utxos: OutputMap<(bool, TransactionOutput)>,
    target: U256,
    blocks: Vec<Block>,
    mempool: Vec<(Timestamp, Transaction)>,
}

impl Blockchain {
    /// The chain is well formed: its table of outputs has distinct keys and
    /// its target is no easier than the easiest target.
    pub closed spec fn wf(&self) -> bool {
        &&& self.utxos.wf()
        &&& self.target@ <= min_target_value()
        &&& chain_linked(self.blocks@)
    }

    /// The blocks of a well-formed chain are linked, and its target is no
    /// easier than the easiest target: every chain that `new` and the
    /// operations below build is linked.
    pub proof fn lemma_wf_linked(&self)
        requires
            self.wf(),
        ensures
            chain_linked(self.block_seq()),
            self.target_spec()@ <= min_target_value(),
    {
    }

    /// The unspent outputs, each with the mark of being spent in the mempool.
    pub closed spec fn utxo_map(&self) -> Map<nat, (bool, TransactionOutput)> {
        self.utxos@
    }

    /// The current target.
    pub closed spec fn target_spec(&self) -> U256 {
        self.target
    }

    /// The blocks, in order.
    pub closed spec fn block_seq(&self) -> Seq<Block> {
        self.blocks@
    }

    /// The transactions waiting to be mined, with the time each arrived.
    pub closed spec fn mempool_seq(&self) -> Seq<(Timestamp, Transaction)> {
        self.mempool@
    }

    /// `self` and `other` hold the same outputs, target, blocks and mempool.
    pub open spec fn same_state(&self, other: Blockchain) -> bool {
        &&& self.utxo_map() == other.utxo_map()
        &&& self.target_spec() == other.target_spec()
        &&& self.block_seq() == other.block_seq()
        &&& self.mempool_seq() == other.mempool_seq()
    }

    /// An empty chain with the easiest target.
    pub fn new() -> (r: Blockchain)
        ensures
            r.wf(),
            r.utxo_map() == Map::<nat, (bool, TransactionOutput)>::empty(),
            r.target_spec()@ == min_target_value(),
            r.block_seq() == Seq::<Block>::empty(),
            r.mempool_seq() == Seq::<(Timestamp, Transaction)>::empty(),
    {
        Blockchain {
            utxos: OutputMap::new(),
            target: crate::min_target(),
            blocks: Vec::new(),
            mempool: Vec::new(),
        }
    }

    /// The unspent outputs.
    pub fn utxos(&self) -> (r: &OutputMap<(bool, TransactionOutput)>)
        ensures
            r@ == self.utxo_map(),
    {
        &self.utxos
    }

    /// The current target.
    pub fn target(&self) -> (r: U256)
        ensures
            r == self.target_spec(),
    {
        self.target
    }

    /// The blocks, in order.
    pub fn blocks(&self) -> (r: &Vec<Block>)
        ensures
            r@ == self.block_seq(),
    {
        &self.blocks
    }

    /// The number of blocks.
    pub fn block_hieght(&self) -> (r: u64)
        ensures
            r == self.block_seq().len(),
    {
        self.blocks.len() as u64
    }

    /// The transactions waiting to be mined.
    pub fn mempool(&self) -> (r: &Vec<(Timestamp, Transaction)>)
        ensures
            r@ == self.mempool_seq(),
    {
        &self.mempool
    }

    /// Whether the chain accepts `block` as its next block.
    fn accepts(&self, block: &Block) -> (r: bool)
        ensures
            r == block_accepted(self.blocks@, self.target, *block),
    {
        if self.blocks.len() == 0 {
            let zero = crate::sha256::Hash::zero();
            return block.header.prev_block_hash.eq(&zero);
        }
        let last_block = &self.blocks[self.blocks.len() - 1];
        let last_hash = last_block.hash();
        if !block.header.prev_block_hash.eq(&last_hash) {
            return false;
        }
        if !block.header.hash().match_target(self.target) {
            return false;
        }
        let merkle_root = MerkleRoot::calculate(block.transactions.as_slice());
        if !merkle_root.0.eq(&block.header.merkle_root.0) {
            return false;
        }
        if block.header.timestamp.not_after(&last_block.header.timestamp) {
            return false;
        }
        true
    }

    /// The target that `try_adjust_target` sets on `blocks` with `target`.
    fn next_target(blocks: &Vec<Block>, target: &U256) -> (r: Option<U256>)
        requires
            target@ <= min_target_value(),
        ensures
            match adjusted_target(blocks@, *target) {
                Some(v) => r matches Some(t) && t@ == v,
                None => r is None,
            },
    {
        let len = blocks.len();
        if len == 0 || len % (DIFFICULTY_UPDATE_INTERVAL as usize) != 0 {
            return Some(*target);
        }
        let start_time = blocks[len - DIFFICULTY_UPDATE_INTERVAL as usize].header.timestamp;
        let end_time = blocks[len - 1].header.timestamp;
        let time_diff_seconds = end_time.seconds_since(&start_time);
        let target_seconds = IDEAL_BLOCK_TIME * DIFFICULTY_UPDATE_INTERVAL;
        retarget(target, time_diff_seconds, target_seconds)
    }

    /// Adjusts the target once every `DIFFICULTY_UPDATE_INTERVAL` blocks, as
    /// `adjusted_target` says. Where the scaled target does not read as a number
    /// below 2^256 the adjustment cannot finish, so those chains are left out.
    pub fn try_adjust_target(&mut self)
        requires
            old(self).wf(),
            adjusted_target(old(self).block_seq(), old(self).target_spec()) is Some,
        ensures
            final(self).wf(),
            final(self).target_spec()@ == adjusted_target(
                old(self).block_seq(),
                old(self).target_spec(),
            )->Some_0,
            final(self).block_seq() == old(self).block_seq(),
            final(self).utxo_map() == old(self).utxo_map(),
            final(self).mempool_seq() == old(self).mempool_seq(),
    {
        match Self::next_target(&self.blocks, &self.target) {
            Some(t) => {
                self.target = t;
            },
            None => {},
        }
    }

    /// Replays the transactions of every block on the table of unspent
    /// outputs, as `apply_blocks` says: each input's output is removed, then
    /// each output is set, unmarked, under its transaction's hash. A second
    /// rebuild changes nothing.
    pub fn rebuild_utxos(&mut self)
        requires
            old(self).wf(),
        ensures
            final(self).wf(),
            final(self).utxo_map() == apply_blocks(old(self).utxo_map(), old(self).block_seq()),
            apply_blocks(final(self).utxo_map(), final(self).block_seq()) == final(self).utxo_map(),
            final(self).block_seq() == old(self).block_seq(),
            final(self).target_spec() == old(self).target_spec(),
            final(self).mempool_seq() == old(self).mempool_seq(),
    {
        proof {
            lemma_apply_blocks_idempotent(self.utxos@, self.blocks@);
        }
        let ghost m0 = self.utxos@;
        let ghost blocks = self.blocks@;
        let mut b: usize = 0;
        assert(blocks.take(0) =~= Seq::<Block>::empty());
        while b < self.blocks.len()
            invariant
                b <= blocks.len(),
                blocks == self.blocks@,
                self.utxos.wf(),
                self.utxos@ == apply_blocks(m0, blocks.take(b as int)),
                self.target == old(self).target,
                self.mempool@ == old(self).mempool@,
                self.target@ <= min_target_value(),
            decreases blocks.len() - b,
        {
            let ghost mb = self.utxos@;
            let ghost txs = blocks[b as int].transactions@;
            let mut t: usize = 0;
            assert(txs.take(0) =~= Seq::<Transaction>::empty());
            while t < self.blocks[b].transactions.len()
                invariant
                    b < blocks.len(),
                    t <= txs.len(),
                    blocks == self.blocks@,
                    txs == blocks[b as int].transactions@,
                    self.utxos.wf(),
                    self.utxos@ == apply_transactions(mb, txs.take(t as int)),
                    self.target == old(self).target,
                    self.mempool@ == old(self).mempool@,
                    self.target@ <= min_target_value(),
                decreases txs.len() - t,
            {
                let ghost mt = self.utxos@;
                let ghost tx = txs[t as int];
                let mut k: usize = 0;
                assert(tx.inputs@.take(0) =~= Seq::<TransactionInput>::empty());
                while k < self.blocks[b].transactions[t].inputs.len()
                    invariant
                        b < blocks.len(),
                        t < txs.len(),
                        k <= tx.inputs@.len(),
                        blocks == self.blocks@,
                        txs == blocks[b as int].transactions@,
                        tx == txs[t as int],
                        self.utxos.wf(),
                        self.utxos@ == remove_inputs(mt, tx.inputs@.take(k as int)),
                        self.target == old(self).target,
                        self.mempool@ == old(self).mempool@,
                    decreases tx.inputs@.len() - k,
                {
                    let h = self.blocks[b].transactions[t].inputs[k].prev_transaction_output_hash;
                    assert(tx.inputs@.take(k + 1).drop_last() =~= tx.inputs@.take(k as int));
                    self.utxos.remove(&h);
                    k = k + 1;
                }
                assert(tx.inputs@.take(k as int) =~= tx.inputs@);
                let th = self.blocks[b].transactions[t].hash();
                let ghost mr = self.utxos@;
                let mut j: usize = 0;
                assert(tx.outputs@.take(0) =~= Seq::<TransactionOutput>::empty());
                while j < self.blocks[b].transactions[t].outputs.len()
                    invariant
                        b < blocks.len(),
                        t < txs.len(),
                        j <= tx.outputs@.len(),
                        blocks == self.blocks@,
                        txs == blocks[b as int].transactions@,
                        tx == txs[t as int],
                        self.utxos.wf(),
                        self.utxos@ == insert_outputs(mr, th@, tx.outputs@.take(j as int)),
                        self.target == old(self).target,
                        self.mempool@ == old(self).mempool@,
                    decreases tx.outputs@.len() - j,
                {
                    let o = self.blocks[b].transactions[t].outputs[j];
                    assert(tx.outputs@.take(j + 1).drop_last() =~= tx.outputs@.take(j as int));
                    self.utxos.insert(th, (false, o));
                    j = j + 1;
                }
                assert(tx.outputs@.take(j as int) =~= tx.outputs@);
                assert(txs.take(t + 1).drop_last() =~= txs.take(t as int));
                t = t + 1;
            }
            assert(txs.take(t as int) =~= txs);
            assert(blocks.take(b + 1).drop_last() =~= blocks.take(b as int));
            b = b + 1;
        }
        assert(blocks.take(b as int) =~= blocks);
    }

    /// Drops from the mempool the transactions that arrived more than
    /// `MAX_MEMPOOL_TRANSACTION_AGE` seconds before the clock's time, and
    /// clears the mark on the outputs they spent. What is kept depends on the
    /// time read; for each time it is as `clean_mempool_at` says.
    pub fn clean_mempool(&mut self) -> (r: Result<(), CoinError>)
        requires
            old(self).wf(),
        ensures
            final(self).wf(),
            r is Ok,
            exists|now: Timestamp| #[trigger] final(self).mempool_seq() == unexpired(old(self).mempool_seq(), now)
                && final(self).utxo_map() == unmark(
                old(self).utxo_map(),
                expired_inputs(old(self).mempool_seq(), now),
            ),
            final(self).block_seq() == old(self).block_seq(),
            final(self).target_spec() == old(self).target_spec(),
    {
        let now = crate::time::now();
        self.clean_mempool_at(now)
    }

    /// Drops from the mempool the transactions that had expired at `now`
    /// (see `expired`), keeping the others in order, and clears the mark on
    /// every output that a dropped transaction spends.
    pub fn clean_mempool_at(&mut self, now: Timestamp) -> (r: Result<(), CoinError>)
        requires
            old(self).wf(),
        ensures
            final(self).wf(),
            r is Ok,
            final(self).mempool_seq() == unexpired(old(self).mempool_seq(), now),
            final(self).utxo_map() == unmark(
                old(self).utxo_map(),
                expired_inputs(old(self).mempool_seq(), now),
            ),
            final(self).block_seq() == old(self).block_seq(),
            final(self).target_spec() == old(self).target_spec(),
    {
        let ghost pool = self.mempool@;
        let mut rest: Vec<(Timestamp, Transaction)> = Vec::new();
        std::mem::swap(&mut rest, &mut self.mempool);
        let mut kept: Vec<(Timestamp, Transaction)> = Vec::new();
        let mut tx_unmarked: Vec<crate::sha256::Hash> = Vec::new();
        let mut i: usize = 0;
        assert(pool.take(0) =~= Seq::<(Timestamp, Transaction)>::empty());
        assert(pool.skip(0) =~= pool);
        assert(hash_values(tx_unmarked@) =~= Seq::<nat>::empty());
        let n: usize = rest.len();
        assert(pool.len() == n);
        while rest.len() > 0
            invariant
                i <= pool.len(),
                pool.len() <= usize::MAX,
                i + rest@.len() == pool.len(),
                rest@ == pool.skip(i as int),
                kept@ == unexpired(pool.take(i as int), now),
                hash_values(tx_unmarked@) == expired_inputs(pool.take(i as int), now),
            decreases rest@.len(),
        {
            let entry = rest.remove(0);
            assert(entry == pool[i as int]);
            assert(pool.take(i + 1).drop_last() =~= pool.take(i as int));
            assert(rest@ =~= pool.skip(i + 1));
            let time_diff = now.nanos_since(&entry.0);
            if time_diff > (MAX_MEMPOOL_TRANSACTION_AGE as i128) * 1_000_000_000 {
                let ghost before = tx_unmarked@;
                let mut k: usize = 0;
                while k < entry.1.inputs.len()
                    invariant
                        k <= entry.1.inputs@.len(),
                        hash_values(tx_unmarked@) == hash_values(before) + input_hashes(
                            entry.1.inputs@,
                        ).take(k as int),
                    decreases entry.1.inputs@.len() - k,
                {
                    let ghost b2 = tx_unmarked@;
                    tx_unmarked.push(entry.1.inputs[k].prev_transaction_output_hash);
                    assert(hash_values(tx_unmarked@) =~= hash_values(b2).push(
                        entry.1.inputs@[k as int].prev_transaction_output_hash@,
                    ));
                    assert(hash_values(tx_unmarked@) =~= hash_values(before) + input_hashes(
                        entry.1.inputs@,
                    ).take(k + 1));
                    k = k + 1;
                }
                assert(input_hashes(entry.1.inputs@).take(k as int) =~= input_hashes(entry.1.inputs@));
            } else {
                kept.push(entry);
            }
            i = i + 1;
        }
        assert(pool.take(i as int) =~= pool);
        self.mempool = kept;
        let ghost m0 = self.utxos@;
        let ghost hashes = hash_values(tx_unmarked@);
        let mut j: usize = 0;
        assert(hashes.take(0) =~= Seq::<nat>::empty());
        while j < tx_unmarked.len()
            invariant
                j <= tx_unmarked@.len(),
                hashes == hash_values(tx_unmarked@),
                self.utxos.wf(),
                self.utxos@ == unmark(m0, hashes.take(j as int)),
                self.target == old(self).target,
                self.target@ <= min_target_value(),
                self.blocks@ == old(self).blocks@,
                self.mempool@ == unexpired(pool, now),
            decreases tx_unmarked@.len() - j,
        {
            let h = tx_unmarked[j];
            assert(hashes.take(j + 1).drop_last() =~= hashes.take(j as int));
            assert(hashes.take(j + 1).last() == h@);
            match self.utxos.get(&h) {
                Some(entry) => {
                    self.utxos.insert(h, (false, entry.1));
                },
                None => {},
            }
            j = j + 1;
        }
        assert(hashes.take(j as int) =~= hashes);
        Ok(())
    }

    /// Offers `tx` to the mempool at the time read from the clock; for each
    /// time read it does what `add_tx_mempool_at` says.
    pub fn add_tx_mempool(&mut self, tx: Transaction) -> (r: Result<(), CoinError>)
        requires
            old(self).wf(),
            mempool_insert_defined(old(self).utxo_map(), old(self).mempool_seq(), tx),
        ensures
            final(self).wf(),
            exists|now: Timestamp| #[trigger] mempool_added(*old(self), *final(self), tx, now, r),
    {
        let now = crate::time::now();
        let r = self.add_tx_mempool_at(tx, now);
        assert(mempool_added(*old(self), *self, tx, now, r));
        r
    }

    /// Offers `tx` to the mempool at `now`. Its inputs are checked first (see
    /// `check_new_inputs`); a refusal leaves the chain unchanged. Otherwise the
    /// mempool transactions that create outputs it needs and that are marked
    /// as spent leave (see `evict`), `tx` joins with the time `now`, and the
    /// mempool is sorted by fee (see `sort_by_fee`). Where a fee that the sort
    /// reads cannot be computed the call cannot finish, so those inputs are
    /// left out.
    pub fn add_tx_mempool_at(&mut self, tx: Transaction, now: Timestamp) -> (r: Result<(), CoinError>)
        requires
            old(self).wf(),
            mempool_insert_defined(old(self).utxo_map(), old(self).mempool_seq(), tx),
        ensures
            final(self).wf(),
            mempool_added(*old(self), *final(self), tx, now, r),
            r is Ok ==> {
                &&& input_hashes(tx.inputs@).no_duplicates()
                &&& forall|i: int|
                    0 <= i < tx.inputs@.len() ==> old(self).utxo_map().contains_key(
                        #[trigger] tx.inputs@[i].prev_transaction_output_hash@,
                    )
            },
    {
        let res = self.add_tx_mempool_checked(tx, now);
        match res {
            Some(r) => r,
            None => Ok(()),
        }
    }

    /// Offers `tx` to the mempool at `now` as `add_tx_mempool_at` does, but
    /// first works out, once the evictions are done, whether every fee that
    /// the sort reads can be computed: where one cannot, the result is `None`
    /// and the chain is left as the evictions made it.
    pub fn add_tx_mempool_checked(&mut self, tx: Transaction, now: Timestamp) -> (r: Option<
        Result<(), CoinError>,
    >)
        requires
            old(self).wf(),
        ensures
            final(self).wf(),
            r is None <==> !mempool_insert_defined(old(self).utxo_map(), old(self).mempool_seq(), tx),
            r matches Some(res) ==> mempool_added(*old(self), *final(self), tx, now, res),
            r matches Some(Ok(_)) ==> {
                &&& input_hashes(tx.inputs@).no_duplicates()
                &&& forall|i: int|
                    0 <= i < tx.inputs@.len() ==> old(self).utxo_map().contains_key(
                        #[trigger] tx.inputs@[i].prev_transaction_output_hash@,
                    )
            },
            r is None ==> {
                &&& final(self).utxo_map() == evict(
                    old(self).utxo_map(),
                    old(self).mempool_seq(),
                    tx.inputs@,
                ).0
                &&& final(self).mempool_seq() == evict(
                    old(self).utxo_map(),
                    old(self).mempool_seq(),
                    tx.inputs@,
                ).1
                &&& final(self).block_seq() == old(self).block_seq()
                &&& final(self).target_spec() == old(self).target_spec()
            },
    {
        let ghost m0 = self.utxos@;
        let ghost pool0 = self.mempool@;
        let ghost inputs = tx.inputs@;
        let mut known: Vec<crate::sha256::Hash> = Vec::new();
        let mut k: usize = 0;
        assert(inputs.skip(0) =~= inputs);
        assert(hash_values(known@) =~= Seq::<nat>::empty());
        while k < tx.inputs.len()
            invariant
                k <= inputs.len(),
                inputs == tx.inputs@,
                self.utxos.wf(),
                self.utxos@ == m0,
                self.target@ <= min_target_value(),
                self.target == old(self).target,
                self.blocks@ == old(self).blocks@,
                chain_linked(self.blocks@),
                self.mempool@ == pool0,
                pool0 == old(self).mempool@,
                m0 == old(self).utxos@,
                check_new_inputs(m0, inputs, seq![]) == check_new_inputs(
                    m0,
                    inputs.skip(k as int),
                    hash_values(known@),
                ),
            decreases inputs.len() - k,
        {
            let h = &tx.inputs[k].prev_transaction_output_hash;
            assert(inputs.skip(k as int)[0] == inputs[k as int]);
            assert(inputs.skip(k as int).skip(1) =~= inputs.skip(k + 1));
            if !self.utxos.contains_key(h) {
                return Some(Err(CoinError::InvalidTransactionInput));
            }
            if contains_hash(&known, h) {
                return Some(Err(CoinError::InvalidTransaction));
            }
            let ghost before = known@;
            known.push(*h);
            assert(hash_values(known@) =~= hash_values(before).push(h@));
            k = k + 1;
        }
        assert(inputs.skip(k as int) =~= Seq::<TransactionInput>::empty());
        assert(check_new_inputs(m0, inputs, seq![]) is None);
        proof {
            let e = Seq::<nat>::empty();
            lemma_check_new_inputs_none(m0, inputs, e);
            assert(e + input_hashes(inputs) =~= input_hashes(inputs));
            assert forall|i: int|
                0 <= i < inputs.len() implies m0.contains_key(
                    #[trigger] inputs[i].prev_transaction_output_hash@,
                ) by {
                assert(input_hashes(inputs)[i] == inputs[i].prev_transaction_output_hash@);
            }
        }
        let mut k2: usize = 0;
        while k2 < tx.inputs.len()
            invariant
                k2 <= inputs.len(),
                inputs == tx.inputs@,
                self.utxos.wf(),
                self.target@ <= min_target_value(),
                self.target == old(self).target,
                self.blocks@ == old(self).blocks@,
                evict(m0, pool0, inputs) == evict(self.utxos@, self.mempool@, inputs.skip(k2 as int)),
            decreases inputs.len() - k2,
        {
            let h = tx.inputs[k2].prev_transaction_output_hash;
            assert(inputs.skip(k2 as int)[0] == inputs[k2 as int]);
            assert(inputs.skip(k2 as int).skip(1) =~= inputs.skip(k2 + 1));
            match self.utxos.get(&h) {
                Some(entry) => {
                    if entry.0 {
                        match find_creator(&self.mempool, &h) {
                            Some(idx) => {
                                unmark_inputs(&mut self.utxos, &self.mempool[idx].1.inputs);
                                self.mempool.remove(idx);
                            },
                            None => {},
                        }
                    }
                },
                None => {},
            }
            k2 = k2 + 1;
        }
        assert(inputs.skip(k2 as int) =~= Seq::<TransactionInput>::empty());
        assert(evict(m0, pool0, inputs) == (self.utxos@, self.mempool@));
        let ghost p2 = self.mempool@;
        if self.mempool.len() > 0 {
            let defined = fee_is_defined(&self.utxos, &tx) && pool_fees_defined(
                &self.utxos,
                &self.mempool,
            );
            if !defined {
                return None;
            }
        }
        self.mempool.push((now, tx));
        if self.mempool.len() >= 2 {
            let mut pool: Vec<(Timestamp, Transaction)> = Vec::new();
            std::mem::swap(&mut pool, &mut self.mempool);
            assert(p2.len() > 0);
            assert(fee_defined(self.utxos@, tx));
            assert forall|i: int| 0 <= i < pool@.len() implies fee_defined(
                self.utxos@,
                #[trigger] pool@[i].1,
            ) by {
                if i < p2.len() {
                    assert(pool@[i] == p2[i]);
                    assert(fee_defined(self.utxos@, p2[i].1));
                } else {
                    assert(pool@[i].1 == tx);
                }
            }
            self.mempool = sort_pool(pool, &self.utxos);
        } else {
            assert(p2.len() == 0);
            let ghost one = p2.push((now, tx));
            assert(one.drop_last() =~= Seq::<(Timestamp, Transaction)>::empty());
            assert(sort_by_fee(one.drop_last(), self.utxos@) == one.drop_last());
            assert(insert_by_fee(one.drop_last(), (now, tx), self.utxos@) =~= one);
            assert(sort_by_fee(one, self.utxos@) == one);
        }
        Some(Ok(()))
    }

    /// Appends `block` when the chain accepts it (see `block_accepted`), then
    /// adjusts the target; otherwise `InvalidBlock` and the chain is unchanged.
    /// Where the adjustment after an accepted block cannot finish, those
    /// inputs are left out (see `add_block_checked`).
    pub fn add_block(&mut self, block: Block) -> (r: Result<(), CoinError>)
        requires
            old(self).wf(),
            block_accepted(old(self).block_seq(), old(self).target_spec(), block) ==> adjusted_target(
                old(self).block_seq().push(block),
                old(self).target_spec(),
            ) is Some,
        ensures
            final(self).wf(),
            chain_linked(final(self).block_seq()),
            block_accepted(old(self).block_seq(), old(self).target_spec(), block) ==> {
                &&& r is Ok
                &&& final(self).block_seq() == old(self).block_seq().push(block)
                &&& final(self).target_spec()@ == adjusted_target(
                    old(self).block_seq().push(block),
                    old(self).target_spec(),
                )->Some_0
                &&& final(self).utxo_map() == old(self).utxo_map()
                &&& final(self).mempool_seq() == old(self).mempool_seq()
            },
            !block_accepted(old(self).block_seq(), old(self).target_spec(), block) ==> r == Err::<(), CoinError>(
                CoinError::InvalidBlock,
            ) && final(self).same_state(*old(self)),
    {
        if !self.accepts(&block) {
            return Err(CoinError::InvalidBlock);
        }
        proof {
            lemma_accepted_block_keeps_chain_linked(self.blocks@, self.target, block);
        }
        self.blocks.push(block);
        self.try_adjust_target();
        Ok(())
    }

    /// Appends `block` as `add_block` does, but first works out whether the
    /// target adjustment after it can finish: where it cannot, the chain is
    /// unchanged and the result is `None`.
    pub fn add_block_checked(&mut self, block: Block) -> (r: Option<Result<(), CoinError>>)
        requires
            old(self).wf(),
        ensures
            final(self).wf(),
            chain_linked(final(self).block_seq()),
            r is None <==> (block_accepted(old(self).block_seq(), old(self).target_spec(), block) && adjusted_target(
                old(self).block_seq().push(block),
                old(self).target_spec(),
            ) is None),
            r is None ==> final(self).same_state(*old(self)),
            r matches Some(res) ==> {
                &&& block_accepted(old(self).block_seq(), old(self).target_spec(), block) ==> {
                    &&& res is Ok
                    &&& final(self).block_seq() == old(self).block_seq().push(block)
                    &&& final(self).target_spec()@ == adjusted_target(
                        old(self).block_seq().push(block),
                        old(self).target_spec(),
                    )->Some_0
                    &&& final(self).utxo_map() == old(self).utxo_map()
                    &&& final(self).mempool_seq() == old(self).mempool_seq()
                }
                &&& !block_accepted(old(self).block_seq(), old(self).target_spec(), block) ==> res == Err::<(), CoinError>(
                    CoinError::InvalidBlock,
                ) && final(self).same_state(*old(self))
            },
    {
        if !self.accepts(&block) {
            return Some(Err(CoinError::InvalidBlock));
        }
        let ghost before = self.blocks@;
        self.blocks.push(block);
        let next = Self::next_target(&self.blocks, &self.target);
        let b = self.blocks.pop().unwrap();
        assert(self.blocks@ =~= before);
        match next {
            None => None,
            Some(_) => Some(self.add_block(b)),
        }
    }
}

} // verus!
