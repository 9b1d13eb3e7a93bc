//! Blocks, block headers and transactions, how they are encoded, and their hashes.

pub mod block;
pub mod blockchain;

use vstd::prelude::*;
use crate::crypto::{PublicKey, Signature};
use crate::encoding::{be_bytes, enc_array_head, enc_bytes, enc_int, enc_key, enc_map_head, enc_text, enc_uint, push_array_head, push_bytes, push_int, push_key, push_map_head, push_text, push_u128_bytes, push_uint};
use crate::sha256::{digest_value, enc_hash};
use crate::time::{Timestamp, rfc3339, rfc3339_text};
use vstd::seq_lib::lemma_concat_associative;
use crate::u256::U256;
use crate::util::MerkleRoot;

verus! {

/// An output of a transaction: an amount, a unique key and the public key that may spend it.
#[derive(Clone, Copy, Debug)]
pub struct TransactionOutput {
    pub value: u64,
    pub unique_key: u128,
    pub pubkey: PublicKey,
}

/// An input of a transaction: the hash of the output it spends and a signature.
#[derive(Clone, Copy, Debug)]
pub struct TransactionInput {
    pub prev_transaction_output_hash: crate::sha256::Hash,
    pub signature: Signature,
}

/// A transaction: the outputs it spends and the outputs it creates.
#[derive(Clone, Debug)]
pub struct Transaction {
    pub inputs: Vec<TransactionInput>,
    pub outputs: Vec<TransactionOutput>,
}

/// The header of a block.
#[derive(Clone, Copy, Debug)]
pub struct BlockHeader {
    pub timestamp: Timestamp,
    pub nonce: u64,
    pub prev_block_hash: crate::sha256::Hash,
    pub merkle_root: MerkleRoot,
    pub target: U256,
}

/// A block: its header, the nonce that mining varies, and its transactions.
#[derive(Clone, Debug)]
pub struct Block {
    pub header: BlockHeader,
    pub nonce: U256,
    pub transactions: Vec<Transaction>,
}

/// The encoding of a 256-bit number: its 32 bytes, most significant first.
pub open spec fn enc_u256(u: U256) -> Seq<u8> {
    enc_bytes(be_bytes(u@, 32))
}

/// The encoding of an output.
pub open spec fn enc_output(o: TransactionOutput) -> Seq<u8> {
    enc_map_head(3) + enc_key("value") + enc_uint(o.value) + enc_key("unique_key") + enc_bytes(
        be_bytes(o.unique_key as nat, 16),
    ) + enc_key("pubkey") + enc_bytes(o.pubkey.0@)
}

/// The encoding of an input.
pub open spec fn enc_input(i: TransactionInput) -> Seq<u8> {
    enc_map_head(2) + enc_key("prev_transaction_output_hash") + enc_hash(
        i.prev_transaction_output_hash,
    ) + enc_key("signature") + enc_bytes(i.signature.0@)
}

/// The encodings of a sequence of inputs, one after the other.
pub open spec fn enc_inputs(s: Seq<TransactionInput>) -> Seq<u8>
    decreases s.len(),
{
    if s.len() == 0 {
        seq![]
    } else {
        enc_inputs(s.drop_last()) + enc_input(s.last())
    }
}

/// The encodings of a sequence of outputs, one after the other.
pub open spec fn enc_outputs(s: Seq<TransactionOutput>) -> Seq<u8>
    decreases s.len(),
{
    if s.len() == 0 {
        seq![]
    } else {
        enc_outputs(s.drop_last()) + enc_output(s.last())
    }
}

/// The encoding of a transaction.
pub open spec fn enc_transaction(t: Transaction) -> Seq<u8> {
    enc_map_head(2) + enc_key("inputs") + enc_array_head(t.inputs@.len()) + enc_inputs(t.inputs@)
        + enc_key("outputs") + enc_array_head(t.outputs@.len()) + enc_outputs(t.outputs@)
}

/// The encodings of a sequence of transactions, one after the other.
pub open spec fn enc_transactions(s: Seq<Transaction>) -> Seq<u8>
    decreases s.len(),
{
    if s.len() == 0 {
        seq![]
    } else {
        enc_transactions(s.drop_last()) + enc_transaction(s.last())
    }
}

/// The encoding of a point in time: as chrono's serde form of a `DateTime`,
/// the text string of its RFC 3339 form (see `rfc3339_text`). A time that no
/// `DateTime` holds is written as the array of its seconds and nanoseconds.
pub open spec fn enc_timestamp(t: Timestamp) -> Seq<u8> {
    match rfc3339_text(t.seconds, t.nanos) {
        Some(text) => enc_text(text),
        None => enc_array_head(2) + enc_int(t.seconds) + enc_uint(t.nanos as u64),
    }
}

/// The encoding of a block header.
pub open spec fn enc_header(h: BlockHeader) -> Seq<u8> {
    enc_map_head(5) + enc_key("timestamp") + enc_timestamp(h.timestamp) + enc_key("nonce")
        + enc_uint(h.nonce) + enc_key("prev_block_hash") + enc_hash(h.prev_block_hash) + enc_key(
        "merkle_root",
    ) + enc_hash(h.merkle_root.0) + enc_key("target") + enc_u256(h.target)
}

/// The encoding of a block.
pub open spec fn enc_block(b: Block) -> Seq<u8> {
    enc_map_head(3) + enc_key("header") + enc_header(b.header) + enc_key("nonce") + enc_u256(
        b.nonce,
    ) + enc_key("transactions") + enc_array_head(b.transactions@.len()) + enc_transactions(
        b.transactions@,
    )
}

/// The hashes that the inputs of `inputs` spend.
pub open spec fn input_hashes(inputs: Seq<TransactionInput>) -> Seq<nat> {
    Seq::new(inputs.len(), |i: int| inputs[i].prev_transaction_output_hash@)
}

/// The hash of an output.
pub open spec fn output_hash(o: TransactionOutput) -> nat {
    digest_value(enc_output(o))
}

/// The hash of a transaction.
pub open spec fn transaction_hash(t: Transaction) -> nat {
    digest_value(enc_transaction(t))
}

/// The hash of a block header.
pub open spec fn header_hash(h: BlockHeader) -> nat {
    digest_value(enc_header(h))
}

/// The hash of a block.
pub open spec fn block_hash(b: Block) -> nat {
    digest_value(enc_block(b))
}

/// Pushes the encoding of a 256-bit number.
fn push_u256(out: &mut Vec<u8>, u: &U256)
    ensures
        final(out)@ == old(out)@ + enc_u256(*u),
{
    let b = u.to_big_endian();
    push_bytes(out, &b);
}

/// Pushes the encoding of a point in time.
fn push_timestamp(out: &mut Vec<u8>, t: &Timestamp)
    ensures
        final(out)@ == old(out)@ + enc_timestamp(*t),
{
    match rfc3339(t.seconds, t.nanos) {
        Some(text) => {
            push_text(out, text.as_slice());
        },
        None => {
            let ghost start = out@;
            push_array_head(out, 2);
            push_int(out, t.seconds);
            push_uint(out, t.nanos as u64);
            assert(out@ =~= start + enc_timestamp(*t));
        },
    }
}

impl TransactionOutput {
    /// Pushes the encoding of the output.
    pub(crate) fn push_encoding(&self, out: &mut Vec<u8>)
        ensures
            final(out)@ == old(out)@ + enc_output(*self),
    {
        let ghost start = out@;
        push_map_head(out, 3);
        push_key(out, "value");
        push_uint(out, self.value);
        push_key(out, "unique_key");
        push_u128_bytes(out, self.unique_key);
        push_key(out, "pubkey");
        push_bytes(out, &self.pubkey.0);
        assert(out@ =~= start + enc_output(*self));
    }

    /// The hash of the output.
    pub fn hash(&self) -> (r: crate::sha256::Hash)
        ensures
            r@ == output_hash(*self),
    {
        let mut v: Vec<u8> = Vec::new();
        self.push_encoding(&mut v);
        assert(v@ =~= enc_output(*self));
        crate::sha256::Hash::hash(v.as_slice())
    }
}

impl TransactionInput {
    /// Pushes the encoding of the input.
    pub(crate) fn push_encoding(&self, out: &mut Vec<u8>)
        ensures
            final(out)@ == old(out)@ + enc_input(*self),
    {
        let ghost start = out@;
        push_map_head(out, 2);
        push_key(out, "prev_transaction_output_hash");
        self.prev_transaction_output_hash.push_encoding(out);
        push_key(out, "signature");
        push_bytes(out, &self.signature.0);
        assert(out@ =~= start + enc_input(*self));
    }
}

impl Transaction {
    /// A transaction with the given inputs and outputs.
    pub fn new(inputs: Vec<TransactionInput>, outputs: Vec<TransactionOutput>) -> (r: Transaction)
        ensures
            r.inputs@ == inputs@,
            r.outputs@ == outputs@,
    {
        Transaction { inputs, outputs }
    }

    /// Pushes the encoding of the transaction.
    pub(crate) fn push_encoding(&self, out: &mut Vec<u8>)
        ensures
            final(out)@ == old(out)@ + enc_transaction(*self),
    {
        let ghost start = out@;
        push_map_head(out, 2);
        push_key(out, "inputs");
        push_array_head(out, self.inputs.len());
        let ghost mid = out@;
        let mut i: usize = 0;
        while i < self.inputs.len()
            invariant
                i <= self.inputs@.len(),
                out@ == mid + enc_inputs(self.inputs@.take(i as int)),
            decreases self.inputs@.len() - i,
        {
            assert(self.inputs@.take(i + 1).drop_last() =~= self.inputs@.take(i as int));
            self.inputs[i].push_encoding(out);
            assert(out@ =~= mid + enc_inputs(self.inputs@.take(i + 1)));
            i = i + 1;
        }
        assert(self.inputs@.take(i as int) =~= self.inputs@);
        push_key(out, "outputs");
        push_array_head(out, self.outputs.len());
        let ghost mid2 = out@;
        let mut j: usize = 0;
        while j < self.outputs.len()
            invariant
                j <= self.outputs@.len(),
                out@ == mid2 + enc_outputs(self.outputs@.take(j as int)),
            decreases self.outputs@.len() - j,
        {
            assert(self.outputs@.take(j + 1).drop_last() =~= self.outputs@.take(j as int));
            self.outputs[j].push_encoding(out);
            assert(out@ =~= mid2 + enc_outputs(self.outputs@.take(j + 1)));
            j = j + 1;
        }
        assert(self.outputs@.take(j as int) =~= self.outputs@);
        assert(out@ =~= start + enc_transaction(*self));
    }

    /// The hash of the transaction.
    pub fn hash(&self) -> (r: crate::sha256::Hash)
        ensures
            r@ == transaction_hash(*self),
    {
        let mut v: Vec<u8> = Vec::new();
        self.push_encoding(&mut v);
        assert(v@ =~= enc_transaction(*self));
        crate::sha256::Hash::hash(v.as_slice())
    }
}

impl BlockHeader {
    /// A header with the given fields.
    pub fn new(
        timestamp: Timestamp,
        nonce: u64,
        prev_block_hash: crate::sha256::Hash,
        merkle_root: MerkleRoot,
        target: U256,
    ) -> (r: BlockHeader)
        ensures
            r.timestamp == timestamp,
            r.nonce == nonce,
            r.prev_block_hash == prev_block_hash,
            r.merkle_root == merkle_root,
            r.target == target,
    {
        BlockHeader { timestamp, nonce, prev_block_hash, merkle_root, target }
    }

    /// Pushes the encoding of the header.
    pub(crate) fn push_encoding(&self, out: &mut Vec<u8>)
        ensures
            final(out)@ == old(out)@ + enc_header(*self),
    {
        let ghost start = out@;
        push_map_head(out, 5);
        let ghost mut p = enc_map_head(5);
        push_key(out, "timestamp");
        proof {
            lemma_concat_associative(start, p, enc_key("timestamp"));
            p = p + enc_key("timestamp");
        }
        push_timestamp(out, &self.timestamp);
        proof {
            lemma_concat_associative(start, p, enc_timestamp(self.timestamp));
            p = p + enc_timestamp(self.timestamp);
        }
        push_key(out, "nonce");
        proof {
            lemma_concat_associative(start, p, enc_key("nonce"));
            p = p + enc_key("nonce");
        }
        push_uint(out, self.nonce);
        proof {
            lemma_concat_associative(start, p, enc_uint(self.nonce));
            p = p + enc_uint(self.nonce);
        }
        push_key(out, "prev_block_hash");
        proof {
            lemma_concat_associative(start, p, enc_key("prev_block_hash"));
            p = p + enc_key("prev_block_hash");
        }
        self.prev_block_hash.push_encoding(out);
        proof {
            lemma_concat_associative(start, p, enc_hash(self.prev_block_hash));
            p = p + enc_hash(self.prev_block_hash);
        }
        push_key(out, "merkle_root");
        proof {
            lemma_concat_associative(start, p, enc_key("merkle_root"));
            p = p + enc_key("merkle_root");
        }
        self.merkle_root.0.push_encoding(out);
        proof {
            lemma_concat_associative(start, p, enc_hash(self.merkle_root.0));
            p = p + enc_hash(self.merkle_root.0);
        }
        push_key(out, "target");
        proof {
            lemma_concat_associative(start, p, enc_key("target"));
            p = p + enc_key("target");
        }
        push_u256(out, &self.target);
        proof {
            lemma_concat_associative(start, p, enc_u256(self.target));
            p = p + enc_u256(self.target);
        }
        assert(p =~= enc_header(*self));
    }

    /// The hash of the header.
    pub fn hash(&self) -> (r: crate::sha256::Hash)
        ensures
            r@ == header_hash(*self),
    {
        let mut v: Vec<u8> = Vec::new();
        self.push_encoding(&mut v);
        assert(v@ =~= enc_header(*self));
        crate::sha256::Hash::hash(v.as_slice())
    }
}

impl Block {
    /// A block with the given header, nonce and transactions.
    pub fn new(header: BlockHeader, nonce: U256, transactions: Vec<Transaction>) -> (r: Block)
        ensures
            r.header == header,
            r.nonce == nonce,
            r.transactions@ == transactions@,
    {
        Block { header, nonce, transactions }
    }

    /// Pushes the encoding of the block.
    pub(crate) fn push_encoding(&self, out: &mut Vec<u8>)
        ensures
            final(out)@ == old(out)@ + enc_block(*self),
    {
        let ghost start = out@;
        push_map_head(out, 3);
        let ghost mut p = enc_map_head(3);
        push_key(out, "header");
        proof {
            lemma_concat_associative(start, p, enc_key("header"));
            p = p + enc_key("header");
        }
        self.header.push_encoding(out);
        proof {
            lemma_concat_associative(start, p, enc_header(self.header));
            p = p + enc_header(self.header);
        }
        push_key(out, "nonce");
        proof {
            lemma_concat_associative(start, p, enc_key("nonce"));
            p = p + enc_key("nonce");
        }
        push_u256(out, &self.nonce);
        proof {
            lemma_concat_associative(start, p, enc_u256(self.nonce));
            p = p + enc_u256(self.nonce);
        }
        push_key(out, "transactions");
        proof {
            lemma_concat_associative(start, p, enc_key("transactions"));
            p = p + enc_key("transactions");
        }
        push_array_head(out, self.transactions.len());
        proof {
            lemma_concat_associative(start, p, enc_array_head(self.transactions@.len()));
            p = p + enc_array_head(self.transactions@.len());
        }
        let ghost mid = out@;
        let mut i: usize = 0;
        while i < self.transactions.len()
            invariant
                i <= self.transactions@.len(),
                out@ == mid + enc_transactions(self.transactions@.take(i as int)),
            decreases self.transactions@.len() - i,
        {
            assert(self.transactions@.take(i + 1).drop_last() =~= self.transactions@.take(i as int));
            self.transactions[i].push_encoding(out);
            assert(out@ =~= mid + enc_transactions(self.transactions@.take(i + 1)));
            i = i + 1;
        }
        assert(self.transactions@.take(i as int) =~= self.transactions@);
        proof {
            lemma_concat_associative(start, p, enc_transactions(self.transactions@));
        }
        assert(p + enc_transactions(self.transactions@) =~= enc_block(*self));
    }

    /// The hash of the block.
    pub fn hash(&self) -> (r: crate::sha256::Hash)
        ensures
            r@ == block_hash(*self),
    {
        let mut v: Vec<u8> = Vec::new();
        self.push_encoding(&mut v);
        assert(v@ =~= enc_block(*self));
        crate::sha256::Hash::hash(v.as_slice())
    }
}

} // verus!
