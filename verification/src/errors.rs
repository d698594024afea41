//! Typed failures of the wallet engine.
//!
//! Every failure is reported to the caller as one of these values; nothing
//! is silently ignored and nothing terminates the process.

use vstd::prelude::*;

verus! {

/// Failure of creating a fresh wallet against a store.
#[derive(Clone, Copy, PartialEq, Eq, Structural, Debug)]
pub enum CreateWithPersistError {
    /// The supplied descriptor pair is not accepted for the network.
    InvalidDescriptor,
    /// The store already holds a wallet.
    AlreadyExists,
}

/// Failure of rehydrating a wallet from a store.
#[derive(Clone, Copy, PartialEq, Eq, Structural, Debug)]
pub enum LoadWithPersistError {
    /// The store holds no prior wallet.
    NotFound,
    /// The supplied descriptors do not match the persisted ones.
    Mismatch,
    /// The persisted record is not a valid wallet (its descriptor pair is
    /// rejected for its own network).
    Corrupt,
}

/// An update does not chain from the wallet's last known tip.
#[derive(Clone, Copy, PartialEq, Eq, Structural, Debug)]
pub enum CannotConnectError {
    /// The update's claimed base tip differs from the wallet's tip.
    DivergentBase,
}

/// Failure of computing the fee of a transaction against the output set.
#[derive(Clone, Copy, PartialEq, Eq, Structural, Debug)]
pub enum CalculateFeeError {
    /// An input of the transaction references an output unknown to the
    /// wallet.
    MissingTxOut,
    /// The inputs are worth less than the outputs, which would imply value
    /// creation.
    NegativeFee,
}

/// A transaction-id string is not sixty-four hexadecimal digits.
#[derive(Clone, Copy, PartialEq, Eq, Structural, Debug)]
pub enum TxidParseError {
    InvalidTxid,
}

/// Failure of building a transaction or a fee bump.
#[derive(Clone, Copy, PartialEq, Eq, Structural, Debug)]
pub enum CreateTxError {
    /// The recipient list is empty and no drain target was given.
    NoRecipients,
    /// Manual selection was requested with an empty inclusion set.
    NoUtxosSelected,
    /// An explicitly included outpoint is unknown or not spendable, or an
    /// input of the transaction to bump is unknown to the wallet.
    UnknownUtxo,
    /// The requested change-spend policy excludes every owned unspent
    /// output.
    ChangePolicyDescRequired,
    /// A recipient amount, or the residual routed to a drain script, lies
    /// below the dust threshold.
    OutputBelowDustLimit,
    /// The available funds cannot cover the recipients plus the fee.
    InsufficientFunds,
    /// The transaction to bump is not known to the wallet, or none of its
    /// inputs signals replaceability.
    TransactionNotFound,
    /// The target rate of a fee bump resolves to a fee not strictly above
    /// the fee of the transaction being replaced.
    FeeRateTooLow,
}

} // verus!
