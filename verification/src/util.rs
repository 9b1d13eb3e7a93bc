//! Merkle roots of the transactions of a block.

use vstd::prelude::*;
use crate::encoding::{be_bytes, enc_array_head, enc_bytes, push_array_head};
use crate::sha256::{digest_value, enc_hash};
use crate::types::{Transaction, transaction_hash};

verus! {

/// The hash of the pair `[left, right]` of hashes, given by their numbers.
pub open spec fn pair_hash(left: nat, right: nat) -> nat {
    digest_value(enc_array_head(2) + enc_bytes(be_bytes(left, 32)) + enc_bytes(be_bytes(right, 32)))
}

/// The next layer of a Merkle tree: each pair of hashes hashed together, the
/// last hash paired with itself when it has no partner.
pub open spec fn merkle_layer(hs: Seq<nat>) -> Seq<nat> {
    Seq::new(
        ((hs.len() + 1) / 2) as nat,
        |j: int| pair_hash(hs[2 * j], if 2 * j + 1 < hs.len() { hs[2 * j + 1] } else { hs[2 * j] }),
    )
}

/// The layers of a Merkle tree folded up until at most one hash is left.
pub open spec fn merkle_fold(hs: Seq<nat>) -> Seq<nat>
    decreases hs.len(),
{
    if hs.len() <= 1 {
        hs
    } else {
        merkle_fold(merkle_layer(hs))
    }
}

/// The Merkle root of a sequence of hashes; zero when there is none.
pub open spec fn merkle_root_of(hs: Seq<nat>) -> nat {
    if hs.len() == 0 {
        0
    } else {
        merkle_fold(hs)[0]
    }
}

/// The hashes of a sequence of transactions.
pub open spec fn transaction_hashes(txs: Seq<Transaction>) -> Seq<nat> {
    Seq::new(txs.len(), |i: int| transaction_hash(txs[i]))
}

/// The numbers of a sequence of hashes.
pub open spec fn hash_values(hs: Seq<crate::sha256::Hash>) -> Seq<nat> {
    Seq::new(hs.len(), |i: int| hs[i]@)
}

/// Folding a non-empty sequence leaves exactly one hash.
pub proof fn lemma_merkle_fold_len(hs: Seq<nat>)
    requires
        hs.len() > 0,
    ensures
        merkle_fold(hs).len() == 1,
    decreases hs.len(),
{
    if hs.len() > 1 {
        lemma_merkle_fold_len(merkle_layer(hs));
    }
}

/// The root of the Merkle tree over the hashes of a block's transactions.
#[derive(Clone, Copy, PartialEq, Eq, Structural, Debug)]
pub struct MerkleRoot(pub crate::sha256::Hash);

/// The hash of the pair `[left, right]`.
fn hash_pair(left: &crate::sha256::Hash, right: &crate::sha256::Hash) -> (r: crate::sha256::Hash)
    ensures
        r@ == pair_hash(left@, right@),
{
    let mut v: Vec<u8> = Vec::new();
    push_array_head(&mut v, 2);
    left.push_encoding(&mut v);
    right.push_encoding(&mut v);
    assert(v@ =~= enc_array_head(2) + enc_hash(*left) + enc_hash(*right));
    crate::sha256::Hash::hash(v.as_slice())
}

/// The next layer of a Merkle tree.
fn next_layer(layer: &Vec<crate::sha256::Hash>) -> (r: Vec<crate::sha256::Hash>)
    ensures
        hash_values(r@) == merkle_layer(hash_values(layer@)),
{
    let ghost want = merkle_layer(hash_values(layer@));
    let mut out: Vec<crate::sha256::Hash> = Vec::new();
    let len: usize = layer.len();
    let n: usize = len / 2 + len % 2;
    assert(n == (layer@.len() + 1) / 2);
    let mut j: usize = 0;
    while j < n
        invariant
            len == layer@.len(),
            n == (layer@.len() + 1) / 2,
            j <= n,
            out@.len() == j,
            want == merkle_layer(hash_values(layer@)),
            want.len() == n,
            forall|k: int| 0 <= k < out@.len() ==> #[trigger] out@[k]@ == want[k],
        decreases n - j,
    {
        assert(j * 2 < layer@.len()) by (nonlinear_arith)
            requires
                j < (layer@.len() + 1) / 2,
        ;
        let i: usize = 2 * j;
        let left = layer[i];
        let right = if i + 1 < layer.len() {
            layer[i + 1]
        } else {
            layer[i]
        };
        let h = hash_pair(&left, &right);
        out.push(h);
        j = j + 1;
    }
    assert(hash_values(out@) =~= want);
    out
}

impl MerkleRoot {
    /// The Merkle root of the hashes of `transactions`: layers of pair hashes
    /// until one hash is left. An empty list of transactions has the zero root.
    pub fn calculate(transactions: &[Transaction]) -> (r: MerkleRoot)
        ensures
            r.0@ == merkle_root_of(transaction_hashes(transactions@)),
    {
        let ghost leaves = transaction_hashes(transactions@);
        let mut layer: Vec<crate::sha256::Hash> = Vec::new();
        let mut i: usize = 0;
        while i < transactions.len()
            invariant
                i <= transactions@.len(),
                leaves == transaction_hashes(transactions@),
                hash_values(layer@) == leaves.take(i as int),
                layer@.len() == i,
            decreases transactions@.len() - i,
        {
            let h = transactions[i].hash();
            assert(h@ == leaves[i as int]);
            let ghost before = layer@;
            layer.push(h);
            assert forall|k: int| 0 <= k < i + 1 implies #[trigger] hash_values(layer@)[k] == leaves.take(i + 1)[k] by {
                if k < i {
                    assert(layer@[k] == before[k]);
                    assert(hash_values(before)[k] == leaves.take(i as int)[k]);
                }
            }
            assert(hash_values(layer@) =~= leaves.take(i + 1));
            i = i + 1;
        }
        assert(leaves.take(i as int) =~= leaves);
        if layer.len() == 0 {
            return MerkleRoot(crate::sha256::Hash::zero());
        }
        while layer.len() > 1
            invariant
                layer@.len() >= 1,
                leaves.len() > 0,
                merkle_fold(hash_values(layer@)) == merkle_fold(leaves),
            decreases layer@.len(),
        {
            layer = next_layer(&layer);
            assert(hash_values(layer@).len() == layer@.len());
        }
        proof {
            lemma_merkle_fold_len(leaves);
        }
        MerkleRoot(layer[0])
    }
}

} // verus!
