//! The ways in which a block or a transaction is refused.

use vstd::prelude::*;

verus! {

/// Why a block or a transaction was refused.
#[derive(Debug, Clone, Copy, PartialEq, Eq, Structural)]
pub enum CoinError {
    InvalidTransaction,
    InvalidBlock,
    InvalidTransactionOutput,
    InvalidSignature,
    InvalidTransactionInput,
}

impl CoinError {
    /// A short description of the error.
    pub fn message(&self) -> (r: &'static str)
        ensures
            r@ == match self {
                CoinError::InvalidTransaction => "Invalid transaction"@,
                CoinError::InvalidBlock => "Invalid block"@,
                CoinError::InvalidTransactionOutput => "Invalid transaction output"@,
                CoinError::InvalidSignature => "Invalid signature"@,
                CoinError::InvalidTransactionInput => "Invalid transaction input"@,
            },
    {
        match self {
            CoinError::InvalidTransaction => "Invalid transaction",
            CoinError::InvalidBlock => "Invalid block",
            CoinError::InvalidTransactionOutput => "Invalid transaction output",
            CoinError::InvalidSignature => "Invalid signature",
            CoinError::InvalidTransactionInput => "Invalid transaction input",
        }
    }
}

} // verus!
