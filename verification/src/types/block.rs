//! The rules that a block's transactions must follow, and mining.

use vstd::prelude::*;
use crate::crypto::ecdsa_verifies;
use crate::error::CoinError;
use crate::output_map::OutputMap;
use crate::types::{Block, BlockHeader, Transaction, TransactionInput, TransactionOutput, header_hash, input_hashes, output_hash};
use crate::u256::{U256, le_bytes};
use crate::util::hash_values;
use crate::{HALVING_INTERVAL, INITIAL_REWARD};
use vstd::arithmetic::power2::{pow2, lemma2_to64, lemma_pow2_strictly_increases, lemma_pow2_unfold};

verus! {

/// How checking a block's transactions ends.
pub enum Outcome {
    /// Every rule holds.
    Accepted,
    /// A rule is broken, with this error.
    Refused(CoinError),
    /// A sum of amounts does not fit in 64 bits.
    Overflow,
}

/// What a check that ends with `o` returns.
pub open spec fn outcome_result(o: Outcome) -> Result<(), CoinError> {
    match o {
        Outcome::Refused(e) => Err(e),
        _ => Ok(()),
    }
}

/// The sum of the amounts of `outputs`.
pub open spec fn value_sum(outputs: Seq<TransactionOutput>) -> nat
    decreases outputs.len(),
{
    if outputs.len() == 0 {
        0
    } else {
        value_sum(outputs.drop_last()) + outputs.last().value as nat
    }
}

/// Checks the inputs of one transaction in order against the unspent outputs
/// `utxo`, given the hashes `spent` already spent in the block and the sum
/// `sum` of the amounts spent so far: the outcome, the hashes spent, the sum.
/// An input must spend a known output that the block has not spent yet, and
/// is refused when its signature verifies against that output's key.
pub open spec fn check_inputs(
    inputs: Seq<TransactionInput>,
    utxo: Map<nat, TransactionOutput>,
    spent: Seq<nat>,
    sum: nat,
) -> (Outcome, Seq<nat>, nat)
    decreases inputs.len(),
{
    if inputs.len() == 0 {
        (Outcome::Accepted, spent, sum)
    } else {
        let ip = inputs[0];
        let h = ip.prev_transaction_output_hash@;
        if !utxo.contains_key(h) {
            (Outcome::Refused(CoinError::InvalidTransaction), spent, sum)
        } else if spent.contains(h) {
            (Outcome::Refused(CoinError::InvalidTransactionOutput), spent, sum)
        } else if ecdsa_verifies(utxo[h].pubkey.0@, le_bytes(h, 32), ip.signature.0@) {
            (Outcome::Refused(CoinError::InvalidSignature), spent, sum)
        } else if sum + utxo[h].value > u64::MAX {
            (Outcome::Overflow, spent, sum)
        } else {
            check_inputs(inputs.skip(1), utxo, spent.push(h), sum + utxo[h].value as nat)
        }
    }
}

/// Checks transactions in order: the inputs of each, then that its outputs
/// do not exceed its inputs.
pub open spec fn check_transactions(
    txs: Seq<Transaction>,
    utxo: Map<nat, TransactionOutput>,
    spent: Seq<nat>,
) -> Outcome
    decreases txs.len(),
{
    if txs.len() == 0 {
        Outcome::Accepted
    } else {
        let (o, spent2, in_sum) = check_inputs(txs[0].inputs@, utxo, spent, 0);
        if o != Outcome::Accepted {
            o
        } else if value_sum(txs[0].outputs@) > u64::MAX {
            Outcome::Overflow
        } else if in_sum < value_sum(txs[0].outputs@) {
            Outcome::Refused(CoinError::InvalidTransaction)
        } else {
            check_transactions(txs.skip(1), utxo, spent2)
        }
    }
}

/// How checking the transactions of `b` against `utxo` ends; a block without
/// transactions is refused.
pub open spec fn verify_transactions_outcome(b: Block, utxo: Map<nat, TransactionOutput>) -> Outcome {
    if b.transactions@.len() == 0 {
        Outcome::Refused(CoinError::InvalidTransaction)
    } else {
        check_transactions(b.transactions@, utxo, seq![])
    }
}

/// Collects the inputs of one transaction for the miner's reward: each must
/// spend a known output not yet collected. The hashes collected and the sum
/// of their amounts, or `None` when an input breaks the rule.
pub open spec fn reward_inputs(
    inputs: Seq<TransactionInput>,
    utxo: Map<nat, TransactionOutput>,
    keys: Seq<nat>,
    sum: nat,
) -> Option<(Seq<nat>, nat)>
    decreases inputs.len(),
{
    if inputs.len() == 0 {
        Some((keys, sum))
    } else {
        let h = inputs[0].prev_transaction_output_hash@;
        if keys.contains(h) || !utxo.contains_key(h) {
            None
        } else {
            reward_inputs(inputs.skip(1), utxo, keys.push(h), sum + utxo[h].value as nat)
        }
    }
}

/// Collects the outputs of one transaction for the miner's reward: no two
/// may have the same hash. The hashes collected and the sum of the amounts,
/// or `None` when two outputs share a hash.
pub open spec fn reward_outputs(outputs: Seq<TransactionOutput>, keys: Seq<nat>, sum: nat) -> Option<
    (Seq<nat>, nat),
>
    decreases outputs.len(),
{
    if outputs.len() == 0 {
        Some((keys, sum))
    } else {
        let h = output_hash(outputs[0]);
        if keys.contains(h) {
            None
        } else {
            reward_outputs(outputs.skip(1), keys.push(h), sum + outputs[0].value as nat)
        }
    }
}

/// Collects the inputs and outputs of transactions in order: the total
/// amount spent and the total amount created, or `None` when a rule is broken.
pub open spec fn reward_transactions(
    txs: Seq<Transaction>,
    utxo: Map<nat, TransactionOutput>,
    in_keys: Seq<nat>,
    in_sum: nat,
    out_keys: Seq<nat>,
    out_sum: nat,
) -> Option<(nat, nat)>
    decreases txs.len(),
{
    if txs.len() == 0 {
        Some((in_sum, out_sum))
    } else {
        match reward_inputs(txs[0].inputs@, utxo, in_keys, in_sum) {
            None => None,
            Some((ik, is)) => match reward_outputs(txs[0].outputs@, out_keys, out_sum) {
                None => None,
                Some((ok, os)) => reward_transactions(txs.skip(1), utxo, ik, is, ok, os),
            },
        }
    }
}

/// The totals that the miner's reward of `b` is computed from: what the
/// transactions after the first spend and create.
pub open spec fn reward_totals(b: Block, utxo: Map<nat, TransactionOutput>) -> Option<(nat, nat)> {
    if b.transactions@.len() == 0 {
        Some((0, 0))
    } else {
        reward_transactions(b.transactions@.skip(1), utxo, seq![], 0, seq![], 0)
    }
}

/// The totals of `b` fit in 64 bits and the amount spent covers the amount created.
pub open spec fn reward_defined(b: Block, utxo: Map<nat, TransactionOutput>) -> bool {
    reward_totals(b, utxo) matches Some((i, o)) ==> i <= u64::MAX && o <= u64::MAX && o <= i
}

/// What `calculate_miner_reward` returns.
pub open spec fn miner_reward(b: Block, utxo: Map<nat, TransactionOutput>) -> Result<u64, CoinError> {
    match reward_totals(b, utxo) {
        Some((i, o)) => Ok((i - o) as u64),
        None => Err(CoinError::InvalidTransaction),
    }
}

/// The number of halvings at `height`: the quotient by `HALVING_INTERVAL`,
/// cut to 32 bits.
pub open spec fn halvings(height: u64) -> nat {
    ((height / HALVING_INTERVAL) as u32) as nat
}

/// The reward of a new block at `height`, in its smallest units: the
/// initial reward of 50 coins of 10^8 units each, halved `halvings` times.
pub open spec fn block_reward(height: u64) -> nat {
    (INITIAL_REWARD * 100_000_000) as nat / pow2(halvings(height))
}

/// What `verify_coinbase_transactions` returns: the first transaction must
/// have no inputs, some outputs, and outputs worth at least the block reward
/// plus the miner's fees.
pub open spec fn coinbase_result(b: Block, height: u64, utxo: Map<nat, TransactionOutput>) -> Result<
    (),
    CoinError,
> {
    let cb = b.transactions@[0];
    if cb.inputs@.len() != 0 {
        Err(CoinError::InvalidTransaction)
    } else if cb.outputs@.len() == 0 {
        Err(CoinError::InvalidTransaction)
    } else {
        match miner_reward(b, utxo) {
            Ok(fees) => if value_sum(cb.outputs@) < block_reward(height) + fees {
                Err(CoinError::InvalidTransaction)
            } else {
                Ok(())
            },
            Err(e) => Err(e),
        }
    }
}

/// The checks of the coinbase transaction can finish: once the coinbase has
/// no inputs and some outputs, the miner's fees are defined, the reward's
/// power of two fits in 64 bits, and the sums fit in 64 bits.
pub open spec fn coinbase_defined(b: Block, height: u64, utxo: Map<nat, TransactionOutput>) -> bool {
    let cb = b.transactions@[0];
    (cb.inputs@.len() == 0 && cb.outputs@.len() > 0) ==> {
        &&& reward_defined(b, utxo)
        &&& miner_reward(b, utxo) is Ok
        &&& halvings(height) < 64
        &&& value_sum(cb.outputs@) <= u64::MAX
        &&& block_reward(height) + miner_reward(b, utxo)->Ok_0 <= u64::MAX
    }
}

/// The header nonce after one mining step: one more, unless that would not fit.
pub open spec fn next_nonce(n: u64) -> u64 {
    if n < u64::MAX {
        (n + 1) as u64
    } else {
        n
    }
}

/// The header nonce after `k` mining steps from `n`.
pub open spec fn nonce_after(n: u64, k: nat) -> u64
    decreases k,
{
    if k == 0 {
        n
    } else {
        next_nonce(nonce_after(n, (k - 1) as nat))
    }
}

/// The block `b` with the header nonce `n`.
pub open spec fn with_nonce(b: Block, n: u64) -> Block {
    Block {
        header: BlockHeader {
            timestamp: b.header.timestamp,
            nonce: n,
            prev_block_hash: b.header.prev_block_hash,
            merkle_root: b.header.merkle_root,
            target: b.header.target,
        },
        nonce: b.nonce,
        transactions: b.transactions,
    }
}

/// The header hash lies below `target`: the proof of work.
pub open spec fn meets_target(h: BlockHeader, target: U256) -> bool {
    header_hash(h) < target@
}

/// After `k` mining steps the header hash of `b` lies below its header's target.
pub open spec fn mined_at(b: Block, k: nat) -> bool {
    meets_target(with_nonce(b, nonce_after(b.header.nonce, k)).header, b.header.target)
}

/// The block reward halves every `HALVING_INTERVAL` blocks (while the
/// number of halvings stays below 63 and fits in 32 bits).
pub proof fn lemma_block_reward_halves(height: u64)
    requires
        height + HALVING_INTERVAL <= u64::MAX,
        height / HALVING_INTERVAL + 1 < 0x1_0000_0000,
        halvings(height) < 63,
    ensures
        block_reward((height + HALVING_INTERVAL) as u64) == block_reward(height) / 2,
{
    let h2 = (height + HALVING_INTERVAL) as u64;
    assert(h2 / HALVING_INTERVAL == height / HALVING_INTERVAL + 1);
    let e = halvings(height);
    assert(halvings(h2) == e + 1);
    lemma_pow2_unfold(e + 1);
    vstd::arithmetic::power2::lemma_pow2_pos(e);
    vstd::arithmetic::div_mod::lemma_div_denominator(5_000_000_000, pow2(e) as int, 2);
    assert(pow2(e) * 2 == pow2(e + 1));
}

/// The miner's fees never read the first (coinbase) transaction: two blocks
/// whose transactions agree after the first give the same fees.
pub proof fn lemma_miner_reward_ignores_coinbase(b1: Block, b2: Block, utxo: Map<nat, TransactionOutput>)
    requires
        b1.transactions@.len() > 0,
        b2.transactions@.len() > 0,
        b1.transactions@.skip(1) == b2.transactions@.skip(1),
    ensures
        miner_reward(b1, utxo) == miner_reward(b2, utxo),
        reward_defined(b1, utxo) == reward_defined(b2, utxo),
{
}

/// The hashes that the inputs of all of `txs` spend, transaction by transaction.
pub open spec fn all_input_hashes(txs: Seq<Transaction>) -> Seq<nat>
    decreases txs.len(),
{
    if txs.len() == 0 {
        seq![]
    } else {
        input_hashes(txs[0].inputs@) + all_input_hashes(txs.skip(1))
    }
}

/// Inputs that pass are known outputs, spent once, none spent before.
proof fn lemma_check_inputs_accepted(
    inputs: Seq<TransactionInput>,
    utxo: Map<nat, TransactionOutput>,
    spent: Seq<nat>,
    sum: nat,
)
    requires
        check_inputs(inputs, utxo, spent, sum).0 == Outcome::Accepted,
        spent.no_duplicates(),
    ensures
        check_inputs(inputs, utxo, spent, sum).1 == spent + input_hashes(inputs),
        (spent + input_hashes(inputs)).no_duplicates(),
        forall|k: int| 0 <= k < inputs.len() ==> utxo.contains_key(#[trigger] input_hashes(inputs)[k]),
    decreases inputs.len(),
{
    if inputs.len() == 0 {
        assert(spent + input_hashes(inputs) =~= spent);
    } else {
        let h = inputs[0].prev_transaction_output_hash@;
        let rest = inputs.skip(1);
        let spent2 = spent.push(h);
        assert(!spent.contains(h));
        assert(spent2.no_duplicates()) by {
            assert forall|a: int, b: int| 0 <= a < spent2.len() && 0 <= b < spent2.len() && a != b implies spent2[a] != spent2[b] by {
                if a == spent.len() as int {
                    assert(spent2[b] == spent[b]);
                    if spent2[a] == spent2[b] {
                        assert(spent.contains(h));
                    }
                } else if b == spent.len() as int {
                    assert(spent2[a] == spent[a]);
                    if spent2[a] == spent2[b] {
                        assert(spent.contains(h));
                    }
                } else {
                    assert(spent2[a] == spent[a] && spent2[b] == spent[b]);
                }
            }
        }
        lemma_check_inputs_accepted(rest, utxo, spent2, sum + utxo[h].value as nat);
        assert(spent + input_hashes(inputs) =~= spent2 + input_hashes(rest));
        assert forall|k: int| 0 <= k < inputs.len() implies utxo.contains_key(#[trigger] input_hashes(inputs)[k]) by {
            if k > 0 {
                assert(input_hashes(inputs)[k] == input_hashes(rest)[k - 1]);
            }
        }
    }
}

/// Transactions that pass spend known outputs, none twice, and none of
/// those spent before.
proof fn lemma_check_transactions_accepted(
    txs: Seq<Transaction>,
    utxo: Map<nat, TransactionOutput>,
    spent: Seq<nat>,
)
    requires
        check_transactions(txs, utxo, spent) == Outcome::Accepted,
        spent.no_duplicates(),
    ensures
        (spent + all_input_hashes(txs)).no_duplicates(),
        forall|k: int| 0 <= k < all_input_hashes(txs).len() ==> utxo.contains_key(#[trigger] all_input_hashes(txs)[k]),
    decreases txs.len(),
{
    if txs.len() == 0 {
        assert(spent + all_input_hashes(txs) =~= spent);
    } else {
        let ins = txs[0].inputs@;
        lemma_check_inputs_accepted(ins, utxo, spent, 0);
        let spent2 = check_inputs(ins, utxo, spent, 0).1;
        lemma_check_transactions_accepted(txs.skip(1), utxo, spent2);
        assert(spent + all_input_hashes(txs) =~= spent2 + all_input_hashes(txs.skip(1)));
        let a = input_hashes(ins);
        let b = all_input_hashes(txs.skip(1));
        assert forall|k: int| 0 <= k < all_input_hashes(txs).len() implies utxo.contains_key(#[trigger] all_input_hashes(txs)[k]) by {
            if k < a.len() {
                assert(all_input_hashes(txs)[k] == a[k]);
            } else {
                assert(all_input_hashes(txs)[k] == b[k - a.len()]);
            }
        }
    }
}

/// A block whose transactions pass spends only known outputs and none of
/// them twice.
pub proof fn lemma_verified_block_spends_once(b: Block, utxo: Map<nat, TransactionOutput>)
    requires
        verify_transactions_outcome(b, utxo) == Outcome::Accepted,
    ensures
        all_input_hashes(b.transactions@).no_duplicates(),
        forall|k: int|
            0 <= k < all_input_hashes(b.transactions@).len() ==> utxo.contains_key(
                #[trigger] all_input_hashes(b.transactions@)[k],
            ),
{
    let e = Seq::<nat>::empty();
    lemma_check_transactions_accepted(b.transactions@, utxo, e);
    assert(e + all_input_hashes(b.transactions@) =~= all_input_hashes(b.transactions@));
}

/// The sum of the amounts of the outputs of `utxo` that `inputs` spend.
pub open spec fn spent_amount(utxo: Map<nat, TransactionOutput>, inputs: Seq<TransactionInput>) -> nat
    decreases inputs.len(),
{
    if inputs.len() == 0 {
        0
    } else {
        utxo[inputs[0].prev_transaction_output_hash@].value as nat + spent_amount(utxo, inputs.skip(1))
    }
}

/// What all of `txs` spend from `utxo`, transaction by transaction.
pub open spec fn total_spent(utxo: Map<nat, TransactionOutput>, txs: Seq<Transaction>) -> nat
    decreases txs.len(),
{
    if txs.len() == 0 {
        0
    } else {
        spent_amount(utxo, txs[0].inputs@) + total_spent(utxo, txs.skip(1))
    }
}

/// What all of `txs` create, transaction by transaction.
pub open spec fn total_created(txs: Seq<Transaction>) -> nat
    decreases txs.len(),
{
    if txs.len() == 0 {
        0
    } else {
        value_sum(txs[0].outputs@) + total_created(txs.skip(1))
    }
}

/// The sum of amounts, taken from the front.
pub proof fn lemma_value_sum_front(s: Seq<TransactionOutput>)
    requires
        s.len() > 0,
    ensures
        value_sum(s) == s[0].value + value_sum(s.skip(1)),
    decreases s.len(),
{
    if s.len() == 1 {
        assert(s.drop_last() =~= Seq::<TransactionOutput>::empty());
        assert(s.skip(1) =~= Seq::<TransactionOutput>::empty());
    } else {
        lemma_value_sum_front(s.drop_last());
        assert(s.drop_last().skip(1) =~= s.skip(1).drop_last());
        assert(s.skip(1).last() == s.last());
    }
}

/// Appending one distinct element keeps a sequence free of duplicates.
pub(crate) proof fn lemma_push_no_duplicates(s: Seq<nat>, h: nat)
    requires
        s.no_duplicates(),
        !s.contains(h),
    ensures
        s.push(h).no_duplicates(),
{
    let s2 = s.push(h);
    assert forall|a: int, b: int| 0 <= a < s2.len() && 0 <= b < s2.len() && a != b implies s2[a] != s2[b] by {
        if a == s.len() as int {
            assert(s2[b] == s[b]);
            if s2[a] == s2[b] {
                assert(s.contains(h));
            }
        } else if b == s.len() as int {
            assert(s2[a] == s[a]);
            if s2[a] == s2[b] {
                assert(s.contains(h));
            }
        } else {
            assert(s2[a] == s[a] && s2[b] == s[b]);
        }
    }
}

/// Inputs that pass the check add what they spend to the running sum.
proof fn lemma_check_inputs_sum(
    inputs: Seq<TransactionInput>,
    utxo: Map<nat, TransactionOutput>,
    spent: Seq<nat>,
    sum: nat,
)
    requires
        check_inputs(inputs, utxo, spent, sum).0 == Outcome::Accepted,
    ensures
        check_inputs(inputs, utxo, spent, sum).2 == sum + spent_amount(utxo, inputs),
    decreases inputs.len(),
{
    if inputs.len() > 0 {
        let h = inputs[0].prev_transaction_output_hash@;
        lemma_check_inputs_sum(inputs.skip(1), utxo, spent.push(h), sum + utxo[h].value as nat);
    }
}

proof fn lemma_check_transactions_cover(
    txs: Seq<Transaction>,
    utxo: Map<nat, TransactionOutput>,
    spent: Seq<nat>,
)
    requires
        check_transactions(txs, utxo, spent) == Outcome::Accepted,
    ensures
        forall|i: int|
            0 <= i < txs.len() ==> value_sum(#[trigger] txs[i].outputs@) <= spent_amount(utxo, txs[i].inputs@),
    decreases txs.len(),
{
    if txs.len() > 0 {
        let ins = txs[0].inputs@;
        lemma_check_inputs_sum(ins, utxo, spent, 0);
        let spent2 = check_inputs(ins, utxo, spent, 0).1;
        lemma_check_transactions_cover(txs.skip(1), utxo, spent2);
        assert forall|i: int|
            0 <= i < txs.len() implies value_sum(#[trigger] txs[i].outputs@) <= spent_amount(utxo, txs[i].inputs@) by {
            if i > 0 {
                assert(txs[i] == txs.skip(1)[i - 1]);
            }
        }
    }
}

/// A block whose transactions pass creates in each transaction no more than
/// that transaction spends.
pub proof fn lemma_verified_block_covers_outputs(b: Block, utxo: Map<nat, TransactionOutput>)
    requires
        verify_transactions_outcome(b, utxo) != Outcome::Overflow,
        outcome_result(verify_transactions_outcome(b, utxo)) is Ok,
    ensures
        forall|i: int|
            0 <= i < b.transactions@.len() ==> value_sum(#[trigger] b.transactions@[i].outputs@) <= spent_amount(
                utxo,
                b.transactions@[i].inputs@,
            ),
{
    lemma_check_transactions_cover(b.transactions@, utxo, seq![]);
}

proof fn lemma_reward_inputs(
    inputs: Seq<TransactionInput>,
    utxo: Map<nat, TransactionOutput>,
    keys: Seq<nat>,
    sum: nat,
)
    requires
        reward_inputs(inputs, utxo, keys, sum) is Some,
        keys.no_duplicates(),
    ensures
        ({
            let (k2, s2) = reward_inputs(inputs, utxo, keys, sum)->Some_0;
            &&& k2 == keys + input_hashes(inputs)
            &&& k2.no_duplicates()
            &&& s2 == sum + spent_amount(utxo, inputs)
        }),
        forall|k: int| 0 <= k < inputs.len() ==> utxo.contains_key(#[trigger] input_hashes(inputs)[k]),
    decreases inputs.len(),
{
    if inputs.len() == 0 {
        assert(keys + input_hashes(inputs) =~= keys);
    } else {
        let h = inputs[0].prev_transaction_output_hash@;
        let rest = inputs.skip(1);
        lemma_push_no_duplicates(keys, h);
        lemma_reward_inputs(rest, utxo, keys.push(h), sum + utxo[h].value as nat);
        assert(keys + input_hashes(inputs) =~= keys.push(h) + input_hashes(rest));
        assert forall|k: int| 0 <= k < inputs.len() implies utxo.contains_key(#[trigger] input_hashes(inputs)[k]) by {
            if k > 0 {
                assert(input_hashes(inputs)[k] == input_hashes(rest)[k - 1]);
            }
        }
    }
}

proof fn lemma_reward_outputs(outputs: Seq<TransactionOutput>, keys: Seq<nat>, sum: nat)
    requires
        reward_outputs(outputs, keys, sum) is Some,
    ensures
        reward_outputs(outputs, keys, sum)->Some_0.1 == sum + value_sum(outputs),
    decreases outputs.len(),
{
    if outputs.len() > 0 {
        let h = output_hash(outputs[0]);
        lemma_reward_outputs(outputs.skip(1), keys.push(h), sum + outputs[0].value as nat);
        lemma_value_sum_front(outputs);
    }
}

proof fn lemma_reward_transactions(
    txs: Seq<Transaction>,
    utxo: Map<nat, TransactionOutput>,
    in_keys: Seq<nat>,
    in_sum: nat,
    out_keys: Seq<nat>,
    out_sum: nat,
)
    requires
        reward_transactions(txs, utxo, in_keys, in_sum, out_keys, out_sum) is Some,
        in_keys.no_duplicates(),
    ensures
        ({
            let (i, o) = reward_transactions(txs, utxo, in_keys, in_sum, out_keys, out_sum)->Some_0;
            &&& i == in_sum + total_spent(utxo, txs)
            &&& o == out_sum + total_created(txs)
        }),
        (in_keys + all_input_hashes(txs)).no_duplicates(),
        forall|k: int| 0 <= k < all_input_hashes(txs).len() ==> utxo.contains_key(#[trigger] all_input_hashes(txs)[k]),
    decreases txs.len(),
{
    if txs.len() == 0 {
        assert(in_keys + all_input_hashes(txs) =~= in_keys);
    } else {
        let ins = txs[0].inputs@;
        lemma_reward_inputs(ins, utxo, in_keys, in_sum);
        let (ik, is) = reward_inputs(ins, utxo, in_keys, in_sum)->Some_0;
        lemma_reward_outputs(txs[0].outputs@, out_keys, out_sum);
        let (ok, os) = reward_outputs(txs[0].outputs@, out_keys, out_sum)->Some_0;
        lemma_reward_transactions(txs.skip(1), utxo, ik, is, ok, os);
        assert(in_keys + all_input_hashes(txs) =~= ik + all_input_hashes(txs.skip(1)));
        let a = input_hashes(ins);
        let b = all_input_hashes(txs.skip(1));
        assert forall|k: int| 0 <= k < all_input_hashes(txs).len() implies utxo.contains_key(#[trigger] all_input_hashes(txs)[k]) by {
            if k < a.len() {
                assert(all_input_hashes(txs)[k] == a[k]);
            } else {
                assert(all_input_hashes(txs)[k] == b[k - a.len()]);
            }
        }
    }
}

/// When the miner's fees come out, the transactions after the first spend
/// only known outputs, none twice among them, and the fees are what they
/// spend minus what they create.
pub proof fn lemma_miner_reward_is_fees(b: Block, utxo: Map<nat, TransactionOutput>, fees: u64)
    requires
        b.transactions@.len() > 0,
        reward_defined(b, utxo),
        miner_reward(b, utxo) == Ok::<u64, CoinError>(fees),
    ensures
        all_input_hashes(b.transactions@.skip(1)).no_duplicates(),
        forall|k: int|
            0 <= k < all_input_hashes(b.transactions@.skip(1)).len() ==> utxo.contains_key(
                #[trigger] all_input_hashes(b.transactions@.skip(1))[k],
            ),
        fees == total_spent(utxo, b.transactions@.skip(1)) - total_created(b.transactions@.skip(1)),
{
    let txs = b.transactions@.skip(1);
    let e = Seq::<nat>::empty();
    lemma_reward_transactions(txs, utxo, e, 0, e, 0);
    assert(e + all_input_hashes(txs) =~= all_input_hashes(txs));
}

/// A coinbase with no inputs and some outputs passes exactly when all its
/// outputs together pay at least the block reward plus the miner's fees;
/// otherwise it is refused with `InvalidTransaction`.
pub proof fn lemma_coinbase_pays_total(b: Block, height: u64, utxo: Map<nat, TransactionOutput>, fees: u64)
    requires
        b.transactions@.len() > 0,
        b.transactions@[0].inputs@.len() == 0,
        b.transactions@[0].outputs@.len() > 0,
        miner_reward(b, utxo) == Ok::<u64, CoinError>(fees),
    ensures
        coinbase_result(b, height, utxo) is Ok <==> value_sum(b.transactions@[0].outputs@) >= block_reward(height) + fees,
        coinbase_result(b, height, utxo) is Err ==> coinbase_result(b, height, utxo) == Err::<(), CoinError>(
            CoinError::InvalidTransaction,
        ),
{
}

/// How the coinbase's amounts are split among its outputs does not matter:
/// two blocks that agree after the first transaction, whose coinbases have
/// no inputs and outputs of the same total, get the same answer.
pub proof fn lemma_coinbase_split_irrelevant(b1: Block, b2: Block, height: u64, utxo: Map<nat, TransactionOutput>)
    requires
        b1.transactions@.len() > 0,
        b2.transactions@.len() > 0,
        b1.transactions@.skip(1) == b2.transactions@.skip(1),
        b1.transactions@[0].inputs@.len() == 0,
        b2.transactions@[0].inputs@.len() == 0,
        b1.transactions@[0].outputs@.len() > 0,
        b2.transactions@[0].outputs@.len() > 0,
        value_sum(b1.transactions@[0].outputs@) == value_sum(b2.transactions@[0].outputs@),
    ensures
        coinbase_result(b1, height, utxo) == coinbase_result(b2, height, utxo),
{
    lemma_miner_reward_ignores_coinbase(b1, b2, utxo);
}

/// The sum over a prefix is at most the sum over the whole.
pub proof fn lemma_value_sum_prefix(s: Seq<TransactionOutput>, j: int)
    requires
        0 <= j <= s.len(),
    ensures
        value_sum(s.take(j)) <= value_sum(s),
    decreases s.len(),
{
    if j < s.len() {
        lemma_value_sum_prefix(s.drop_last(), j);
        assert(s.drop_last().take(j) =~= s.take(j));
    } else {
        assert(s.take(j) =~= s);
    }
}

/// Whether `h` is among the hashes `v`.
pub(crate) fn contains_hash(v: &Vec<crate::sha256::Hash>, h: &crate::sha256::Hash) -> (r: bool)
    ensures
        r == hash_values(v@).contains(h@),
{
    let mut i: usize = 0;
    while i < v.len()
        invariant
            i <= v@.len(),
            forall|j: int| 0 <= j < i ==> v@[j]@ != h@,
        decreases v@.len() - i,
    {
        if v[i].eq(h) {
            assert(hash_values(v@)[i as int] == h@);
            return true;
        }
        i = i + 1;
    }
    proof {
        if hash_values(v@).contains(h@) {
            let j = choose|j: int| 0 <= j < hash_values(v@).len() && hash_values(v@)[j] == h@;
            assert(v@[j]@ == h@);
        }
    }
    false
}

/// The sum of the amounts of `outputs`.
pub(crate) fn sum_values(outputs: &Vec<TransactionOutput>) -> (r: u64)
    requires
        value_sum(outputs@) <= u64::MAX,
    ensures
        r == value_sum(outputs@),
{
    let mut sum: u64 = 0;
    let mut j: usize = 0;
    while j < outputs.len()
        invariant
            j <= outputs@.len(),
            sum == value_sum(outputs@.take(j as int)),
            value_sum(outputs@) <= u64::MAX,
        decreases outputs@.len() - j,
    {
        assert(outputs@.take(j + 1).drop_last() =~= outputs@.take(j as int));
        proof {
            lemma_value_sum_prefix(outputs@, j + 1);
        }
        sum = sum + outputs[j].value;
        j = j + 1;
    }
    assert(outputs@.take(j as int) =~= outputs@);
    sum
}

/// The sum of the amounts of `outputs`, or `None` where it does not fit in 64 bits.
pub(crate) fn checked_sum_values(outputs: &Vec<TransactionOutput>) -> (r: Option<u64>)
    ensures
        match r {
            Some(v) => v == value_sum(outputs@),
            None => value_sum(outputs@) > u64::MAX,
        },
{
    let mut sum: u64 = 0;
    let mut j: usize = 0;
    while j < outputs.len()
        invariant
            j <= outputs@.len(),
            sum == value_sum(outputs@.take(j as int)),
        decreases outputs@.len() - j,
    {
        assert(outputs@.take(j + 1).drop_last() =~= outputs@.take(j as int));
        match sum.checked_add(outputs[j].value) {
            Some(x) => {
                sum = x;
            },
            None => {
                proof {
                    lemma_value_sum_prefix(outputs@, j + 1);
                }
                return None;
            },
        }
        j = j + 1;
    }
    assert(outputs@.take(j as int) =~= outputs@);
    Some(sum)
}

/// 2 to the power `e`.
fn pow2_u64(e: u32) -> (r: u64)
    requires
        e < 64,
    ensures
        r == pow2(e as nat),
        r > 0,
{
    proof {
        lemma2_to64();
        vstd::arithmetic::power2::lemma_pow2_pos(e as nat);
    }
    let mut p: u64 = 1;
    let mut i: u32 = 0;
    while i < e
        invariant
            i <= e < 64,
            p == pow2(i as nat),
            pow2(64) == 0x1_0000_0000_0000_0000,
        decreases e - i,
    {
        proof {
            lemma_pow2_unfold((i + 1) as nat);
            lemma_pow2_strictly_increases((i + 1) as nat, 64);
        }
        p = p * 2;
        i = i + 1;
    }
    p
}

impl Block {
    /// Checks the coinbase transaction, the first of the block, as
    /// `coinbase_result` says. The block must have a transaction, and where
    /// the reward or a sum cannot be computed the check cannot finish, so those
    /// blocks are left out.
    pub fn verify_coinbase_transactions(
        &self,
        predicted_block_height: u64,
        utxo: OutputMap<TransactionOutput>,
    ) -> (r: Result<(), CoinError>)
        requires
            utxo.wf(),
            self.transactions@.len() > 0,
            coinbase_defined(*self, predicted_block_height, utxo@),
        ensures
            r == coinbase_result(*self, predicted_block_height, utxo@),
    {
        match self.verify_coinbase_transactions_checked(predicted_block_height, utxo) {
            Some(r) => r,
            None => Ok(()),
        }
    }

    /// Checks the coinbase transaction as `verify_coinbase_transactions` does,
    /// but first works out whether the check can finish: `None` where the
    /// block has no transaction or the reward or a sum cannot be computed
    /// (see `coinbase_defined`).
    pub fn verify_coinbase_transactions_checked(
        &self,
        predicted_block_height: u64,
        utxo: OutputMap<TransactionOutput>,
    ) -> (r: Option<Result<(), CoinError>>)
        requires
            utxo.wf(),
        ensures
            r is None <==> (self.transactions@.len() == 0 || !coinbase_defined(
                *self,
                predicted_block_height,
                utxo@,
            )),
            r matches Some(res) ==> res == coinbase_result(*self, predicted_block_height, utxo@),
            r matches Some(Ok(_)) ==> {
                &&& self.transactions@[0].inputs@.len() == 0
                &&& self.transactions@[0].outputs@.len() > 0
                &&& value_sum(self.transactions@[0].outputs@) >= block_reward(predicted_block_height)
                    + total_spent(utxo@, self.transactions@.skip(1)) - total_created(
                    self.transactions@.skip(1),
                )
            },
    {
        proof {
            if self.transactions@.len() > 0 && coinbase_defined(*self, predicted_block_height, utxo@)
                && self.transactions@[0].inputs@.len() == 0 && self.transactions@[0].outputs@.len() > 0 {
                let fees = miner_reward(*self, utxo@)->Ok_0;
                lemma_miner_reward_is_fees(*self, utxo@, fees);
                lemma_coinbase_pays_total(*self, predicted_block_height, utxo@, fees);
            }
        }
        if self.transactions.len() == 0 {
            return None;
        }
        let coinbase_tx = &self.transactions[0];
        if coinbase_tx.inputs.len() != 0 {
            return Some(Err(CoinError::InvalidTransaction));
        }
        if coinbase_tx.outputs.len() == 0 {
            return Some(Err(CoinError::InvalidTransaction));
        }
        let miner_reward = match self.calculate_miner_reward_checked(utxo) {
            Some(Ok(v)) => v,
            _ => {
                return None;
            },
        };
        let exponent: u32 = (predicted_block_height / HALVING_INTERVAL) as u32;
        if exponent >= 64 {
            return None;
        }
        let block_reward = INITIAL_REWARD * 100_000_000 / pow2_u64(exponent);
        let total_coinbase_tx_outputs_value = match checked_sum_values(&coinbase_tx.outputs) {
            Some(v) => v,
            None => {
                return None;
            },
        };
        let needed = match block_reward.checked_add(miner_reward) {
            Some(v) => v,
            None => {
                return None;
            },
        };
        if total_coinbase_tx_outputs_value < needed {
            return Some(Err(CoinError::InvalidTransaction));
        }
        Some(Ok(()))
    }

    /// Mines for at most `steps` steps on the header: true at once when the
    /// header hash already lies below the header's target; otherwise each step
    /// adds one to the header nonce (unless it would not fit) and hashes the
    /// header again. On success the header nonce is that of the first step
    /// that hit; otherwise that after `steps` steps.
    pub fn mine_blocks(&mut self, steps: usize) -> (r: bool)
        ensures
            r == exists|k: nat| k <= steps && #[trigger] mined_at(*old(self), k),
            r ==> exists|k: nat|
                #![trigger mined_at(*old(self), k)]
                k <= steps && mined_at(*old(self), k) && (forall|j: nat| j < k ==> !mined_at(*old(self), j))
                    && *final(self) == with_nonce(*old(self), nonce_after(old(self).header.nonce, k)),
            !r ==> *final(self) == with_nonce(*old(self), nonce_after(old(self).header.nonce, steps as nat)),
            r ==> meets_target(final(self).header, final(self).header.target),
            final(self).header.target == old(self).header.target,
            final(self).nonce == old(self).nonce,
            final(self).transactions == old(self).transactions,
    {
        let ghost b0 = *self;
        assert(*self == with_nonce(b0, nonce_after(b0.header.nonce, 0)));
        if self.header.hash().match_target(self.header.target) {
            assert(mined_at(b0, 0));
            return true;
        }
        let mut i: usize = 0;
        while i < steps
            invariant
                i <= steps,
                *self == with_nonce(b0, nonce_after(b0.header.nonce, i as nat)),
                forall|j: nat| j <= i ==> !mined_at(b0, j),
                b0 == *old(self),
            decreases steps - i,
        {
            let ghost prev = self.header.nonce;
            match self.header.nonce.checked_add(1) {
                Some(nonce) => {
                    self.header.nonce = nonce;
                },
                None => {},
            }
            assert(self.header.nonce == next_nonce(prev));
            assert(nonce_after(b0.header.nonce, (i + 1) as nat) == next_nonce(
                nonce_after(b0.header.nonce, i as nat),
            ));
            i = i + 1;
            assert(*self == with_nonce(b0, nonce_after(b0.header.nonce, i as nat)));
            if self.header.hash().match_target(self.header.target) {
                assert(mined_at(b0, i as nat));
                return true;
            }
        }
        proof {
            assert forall|k: nat| k <= steps implies !#[trigger] mined_at(b0, k) by {
            }
        }
        false
    }

    /// The fees that the transactions after the first leave to the miner: what
    /// they spend minus what they create. An input must spend a known output,
    /// none twice, and no two outputs may share a hash; otherwise
    /// `InvalidTransaction`. Where the totals do not fit in 64 bits, or the
    /// outputs exceed the inputs, the subtraction cannot be done, so those
    /// blocks are left out.
    pub fn calculate_miner_reward(&self, utxo: OutputMap<TransactionOutput>) -> (r: Result<
        u64,
        CoinError,
    >)
        requires
            utxo.wf(),
            reward_defined(*self, utxo@),
        ensures
            r == miner_reward(*self, utxo@),
    {
        match self.calculate_miner_reward_checked(utxo) {
            Some(r) => r,
            None => Ok(0),
        }
    }

    /// The fees as `calculate_miner_reward` computes them, but first works
    /// out whether the subtraction can be done: where it cannot (see
    /// `reward_defined`) the result is `None`.
    pub fn calculate_miner_reward_checked(&self, utxo: OutputMap<TransactionOutput>) -> (r: Option<
        Result<u64, CoinError>,
    >)
        requires
            utxo.wf(),
        ensures
            r is None <==> !reward_defined(*self, utxo@),
            r matches Some(res) ==> res == miner_reward(*self, utxo@),
            r matches Some(Ok(fees)) ==> self.transactions@.len() > 0 ==> {
                &&& all_input_hashes(self.transactions@.skip(1)).no_duplicates()
                &&& fees == total_spent(utxo@, self.transactions@.skip(1)) - total_created(
                    self.transactions@.skip(1),
                )
            },
    {
        proof {
            if self.transactions@.len() > 0 && reward_defined(*self, utxo@) && miner_reward(
                *self,
                utxo@,
            ) is Ok {
                lemma_miner_reward_is_fees(*self, utxo@, miner_reward(*self, utxo@)->Ok_0);
            }
        }
        if self.transactions.len() == 0 {
            return Some(Ok(0));
        }
        let ghost txs = self.transactions@;
        let ghost u = utxo@;
        let mut in_keys: Vec<crate::sha256::Hash> = Vec::new();
        let mut out_keys: Vec<crate::sha256::Hash> = Vec::new();
        let mut in_sum: u64 = 0;
        let mut out_sum: u64 = 0;
        let mut in_over = false;
        let mut out_over = false;
        let ghost mut gin: nat = 0;
        let ghost mut gout: nat = 0;
        assert(hash_values(in_keys@) =~= Seq::<nat>::empty());
        assert(hash_values(out_keys@) =~= Seq::<nat>::empty());
        let mut t: usize = 1;
        while t < self.transactions.len()
            invariant
                1 <= t <= txs.len(),
                txs == self.transactions@,
                u == utxo@,
                utxo.wf(),
                reward_totals(*self, u) == reward_transactions(
                    txs.skip(t as int),
                    u,
                    hash_values(in_keys@),
                    gin,
                    hash_values(out_keys@),
                    gout,
                ),
                in_over ==> gin > u64::MAX,
                !in_over ==> in_sum == gin,
                out_over ==> gout > u64::MAX,
                !out_over ==> out_sum == gout,
            decreases txs.len() - t,
        {
            let tx = &self.transactions[t];
            assert(txs.skip(t as int)[0] == *tx);
            assert(txs.skip(t as int).skip(1) =~= txs.skip(t + 1));
            let ghost ik0 = hash_values(in_keys@);
            let ghost gin0 = gin;
            let mut k: usize = 0;
            assert(tx.inputs@.skip(0) =~= tx.inputs@);
            while k < tx.inputs.len()
                invariant
                    k <= tx.inputs@.len(),
                    u == utxo@,
                    utxo.wf(),
                    reward_inputs(tx.inputs@, u, ik0, gin0) == reward_inputs(
                        tx.inputs@.skip(k as int),
                        u,
                        hash_values(in_keys@),
                        gin,
                    ),
                    reward_totals(*self, u) == reward_transactions(
                        txs.skip(t as int),
                        u,
                        ik0,
                        gin0,
                        hash_values(out_keys@),
                        gout,
                    ),
                    txs.skip(t as int).len() > 0,
                    txs.skip(t as int)[0] == *tx,
                    txs == self.transactions@,
                    in_over ==> gin > u64::MAX,
                    !in_over ==> in_sum == gin,
                decreases tx.inputs@.len() - k,
            {
                let h = &tx.inputs[k].prev_transaction_output_hash;
                assert(tx.inputs@.skip(k as int)[0] == tx.inputs@[k as int]);
                assert(tx.inputs@.skip(k as int).skip(1) =~= tx.inputs@.skip(k + 1));
                if contains_hash(&in_keys, h) {
                    assert(reward_totals(*self, u) is None);
                    return Some(Err(CoinError::InvalidTransaction));
                }
                let prev = utxo.get(h);
                match prev {
                    None => {
                        assert(reward_totals(*self, u) is None);
                        return Some(Err(CoinError::InvalidTransaction));
                    },
                    Some(o) => {
                        if !in_over {
                            match in_sum.checked_add(o.value) {
                                Some(x) => {
                                    in_sum = x;
                                },
                                None => {
                                    in_over = true;
                                },
                            }
                        }
                        proof {
                            gin = gin + o.value as nat;
                        }
                    },
                }
                let ghost before = in_keys@;
                in_keys.push(*h);
                assert(hash_values(in_keys@) =~= hash_values(before).push(h@));
                k = k + 1;
            }
            assert(tx.inputs@.skip(k as int) =~= Seq::<TransactionInput>::empty());
            let ghost ok0 = hash_values(out_keys@);
            let ghost gout0 = gout;
            let mut j: usize = 0;
            assert(tx.outputs@.skip(0) =~= tx.outputs@);
            while j < tx.outputs.len()
                invariant
                    j <= tx.outputs@.len(),
                    reward_outputs(tx.outputs@, ok0, gout0) == reward_outputs(
                        tx.outputs@.skip(j as int),
                        hash_values(out_keys@),
                        gout,
                    ),
                    out_over ==> gout > u64::MAX,
                    !out_over ==> out_sum == gout,
                    in_over ==> gin > u64::MAX,
                    !in_over ==> in_sum == gin,
                    reward_totals(*self, u) == reward_transactions(
                        txs.skip(t as int),
                        u,
                        ik0,
                        gin0,
                        ok0,
                        gout0,
                    ),
                    reward_inputs(tx.inputs@, u, ik0, gin0) == Some((hash_values(in_keys@), gin)),
                    txs.skip(t as int).len() > 0,
                    txs.skip(t as int)[0] == *tx,
                    txs == self.transactions@,
                    u == utxo@,
                    utxo.wf(),
                decreases tx.outputs@.len() - j,
            {
                let o = &tx.outputs[j];
                assert(tx.outputs@.skip(j as int)[0] == *o);
                assert(tx.outputs@.skip(j as int).skip(1) =~= tx.outputs@.skip(j + 1));
                let h = o.hash();
                if contains_hash(&out_keys, &h) {
                    assert(reward_outputs(tx.outputs@, ok0, gout0) is None);
                    assert(reward_totals(*self, u) is None);
                    return Some(Err(CoinError::InvalidTransaction));
                }
                if !out_over {
                    match out_sum.checked_add(o.value) {
                        Some(x) => {
                            out_sum = x;
                        },
                        None => {
                            out_over = true;
                        },
                    }
                }
                proof {
                    gout = gout + o.value as nat;
                }
                let ghost before = out_keys@;
                out_keys.push(h);
                assert(hash_values(out_keys@) =~= hash_values(before).push(h@));
                j = j + 1;
            }
            assert(tx.outputs@.skip(j as int) =~= Seq::<TransactionOutput>::empty());
            assert(reward_totals(*self, u) == reward_transactions(
                txs.skip(t + 1),
                u,
                hash_values(in_keys@),
                gin,
                hash_values(out_keys@),
                gout,
            ));
            t = t + 1;
        }
        assert(txs.skip(t as int) =~= Seq::<Transaction>::empty());
        if in_over || out_over || in_sum < out_sum {
            return None;
        }
        Some(Ok(in_sum - out_sum))
    }

    /// Checks the transactions of the block against the unspent outputs `utxo`,
    /// as `verify_transactions_outcome` says. As `check_inputs` records, an
    /// input is refused with `InvalidSignature` when its signature does
    /// verify against the key of the output it spends, and passes when it
    /// does not. Where a sum of amounts would not
    /// fit in 64 bits the check cannot finish, so those blocks are left out.
    pub fn verify_transactions(
        &self,
        predicted_block_hieght: u64,
        utxo: &OutputMap<TransactionOutput>,
    ) -> (r: Result<(), CoinError>)
        requires
            utxo.wf(),
            verify_transactions_outcome(*self, utxo@) != Outcome::Overflow,
        ensures
            r == outcome_result(verify_transactions_outcome(*self, utxo@)),
    {
        match self.verify_transactions_checked(predicted_block_hieght, utxo) {
            Some(r) => r,
            None => Ok(()),
        }
    }

    /// Checks the transactions of the block as `verify_transactions` does,
    /// but stops with `None` where a sum of amounts would not fit in 64 bits.
    pub fn verify_transactions_checked(
        &self,
        _predicted_block_hieght: u64,
        utxo: &OutputMap<TransactionOutput>,
    ) -> (r: Option<Result<(), CoinError>>)
        requires
            utxo.wf(),
        ensures
            r is None <==> verify_transactions_outcome(*self, utxo@) == Outcome::Overflow,
            r matches Some(res) ==> res == outcome_result(verify_transactions_outcome(*self, utxo@)),
            r matches Some(Ok(_)) ==> {
                &&& all_input_hashes(self.transactions@).no_duplicates()
                &&& forall|k: int|
                    0 <= k < all_input_hashes(self.transactions@).len() ==> utxo@.contains_key(
                        #[trigger] all_input_hashes(self.transactions@)[k],
                    )
                &&& forall|i: int|
                    0 <= i < self.transactions@.len() ==> value_sum(#[trigger] self.transactions@[i].outputs@)
                        <= spent_amount(utxo@, self.transactions@[i].inputs@)
            },
    {
        proof {
            if verify_transactions_outcome(*self, utxo@) == Outcome::Accepted {
                lemma_verified_block_spends_once(*self, utxo@);
                lemma_verified_block_covers_outputs(*self, utxo@);
            }
        }
        if self.transactions.len() == 0 {
            return Some(Err(CoinError::InvalidTransaction));
        }
        let ghost txs = self.transactions@;
        let ghost u = utxo@;
        let mut spent: Vec<crate::sha256::Hash> = Vec::new();
        let mut t: usize = 0;
        assert(txs.skip(0) =~= txs);
        assert(hash_values(spent@) =~= Seq::<nat>::empty());
        while t < self.transactions.len()
            invariant
                t <= txs.len(),
                txs == self.transactions@,
                u == utxo@,
                utxo.wf(),
                txs.len() > 0,
                check_transactions(txs, u, seq![]) == check_transactions(
                    txs.skip(t as int),
                    u,
                    hash_values(spent@),
                ),
            decreases txs.len() - t,
        {
            let tx = &self.transactions[t];
            assert(txs.skip(t as int)[0] == *tx);
            assert(txs.skip(t as int).skip(1) =~= txs.skip(t + 1));
            let ghost spent0 = hash_values(spent@);
            let mut input: u64 = 0;
            let mut k: usize = 0;
            assert(tx.inputs@.skip(0) =~= tx.inputs@);
            while k < tx.inputs.len()
                invariant
                    k <= tx.inputs@.len(),
                    u == utxo@,
                    utxo.wf(),
                    check_inputs(tx.inputs@, u, spent0, 0) == check_inputs(
                        tx.inputs@.skip(k as int),
                        u,
                        hash_values(spent@),
                        input as nat,
                    ),
                    check_transactions(txs, u, seq![]) == check_transactions(
                        txs.skip(t as int),
                        u,
                        spent0,
                    ),
                    txs.skip(t as int).len() > 0,
                    txs.skip(t as int)[0] == *tx,
                    txs == self.transactions@,
                    txs.len() > 0,
                decreases tx.inputs@.len() - k,
            {
                let ip = &tx.inputs[k];
                let h = &ip.prev_transaction_output_hash;
                assert(tx.inputs@.skip(k as int)[0] == *ip);
                assert(tx.inputs@.skip(k as int).skip(1) =~= tx.inputs@.skip(k + 1));
                let prev_output = utxo.get(h);
                if prev_output.is_none() {
                    assert(check_inputs(tx.inputs@, u, spent0, 0).0 == Outcome::Refused(
                        CoinError::InvalidTransaction,
                    ));
                    assert(check_transactions(txs.skip(t as int), u, spent0) == Outcome::Refused(
                        CoinError::InvalidTransaction,
                    ));
                    return Some(Err(CoinError::InvalidTransaction));
                }
                let previous_output = prev_output.unwrap();
                if contains_hash(&spent, h) {
                    assert(check_inputs(tx.inputs@, u, spent0, 0).0 == Outcome::Refused(
                        CoinError::InvalidTransactionOutput,
                    ));
                    assert(check_transactions(txs.skip(t as int), u, spent0) == Outcome::Refused(
                        CoinError::InvalidTransactionOutput,
                    ));
                    return Some(Err(CoinError::InvalidTransactionOutput));
                }
                if ip.signature.verify(h, &previous_output.pubkey) {
                    assert(check_inputs(tx.inputs@, u, spent0, 0).0 == Outcome::Refused(
                        CoinError::InvalidSignature,
                    ));
                    assert(check_transactions(txs.skip(t as int), u, spent0) == Outcome::Refused(
                        CoinError::InvalidSignature,
                    ));
                    return Some(Err(CoinError::InvalidSignature));
                }
                match input.checked_add(previous_output.value) {
                    Some(x) => {
                        input = x;
                    },
                    None => {
                        assert(check_inputs(tx.inputs@, u, spent0, 0).0 == Outcome::Overflow);
                        assert(check_transactions(txs.skip(t as int), u, spent0) == Outcome::Overflow);
                        return None;
                    },
                }
                let ghost before = spent@;
                spent.push(*h);
                assert(hash_values(spent@) =~= hash_values(before).push(h@));
                k = k + 1;
            }
            assert(tx.inputs@.skip(k as int) =~= Seq::<TransactionInput>::empty());
            assert(check_inputs(tx.inputs@, u, spent0, 0) == (Outcome::Accepted, hash_values(spent@), input as nat));
            let output = match checked_sum_values(&tx.outputs) {
                Some(v) => v,
                None => {
                    assert(check_transactions(txs.skip(t as int), u, spent0) == Outcome::Overflow);
                    return None;
                },
            };
            if input < output {
                assert(check_transactions(txs.skip(t as int), u, spent0) == Outcome::Refused(
                    CoinError::InvalidTransaction,
                ));
                return Some(Err(CoinError::InvalidTransaction));
            }
            assert(check_transactions(txs.skip(t as int), u, spent0) == check_transactions(
                txs.skip(t + 1),
                u,
                hash_values(spent@),
            ));
            t = t + 1;
        }
        assert(txs.skip(t as int) =~= Seq::<Transaction>::empty());
        Some(Ok(()))
    }
}

} // verus!
