//! The failure taxonomy of the audit pipeline.

use vstd::prelude::*;

verus! {

/// Every way the pipeline can fail. Entry-validation and history-fetch
/// failures are fatal to a run; metadata and allowance failures are
/// contained to the one contract whose report they degrade.
#[derive(Clone, Copy, Debug, PartialEq, Eq, Structural)]
pub enum Error {
    /// The address is not 40 hexadecimal characters (optional `0x` prefix).
    InvalidAddressFormat,
    /// The owner address has deployed code, so it is no plain wallet.
    NonEoaOwner,
    /// Call data shorter than a selector and one whole 32-byte word, or
    /// not made of whole words.
    MalformedCallData,
    /// A token's name or decimals could not be read.
    MetadataQueryFailed,
    /// A spender's current allowance could not be read.
    AllowanceQueryFailed,
    /// The transaction history could not be fetched at all.
    TransactionHistoryFetchFailed,
}

impl Error {
    /// A short, fixed description of the failure class.
    pub fn describe(&self) -> (r: &'static str)
        ensures
            *self is InvalidAddressFormat ==> r@ == "invalid address format"@,
            *self is NonEoaOwner ==> r@ == "owner address is not an externally owned account"@,
            *self is MalformedCallData ==> r@ == "malformed approve call data"@,
            *self is MetadataQueryFailed ==> r@ == "token metadata query failed"@,
            *self is AllowanceQueryFailed ==> r@ == "allowance query failed"@,
            *self is TransactionHistoryFetchFailed ==> r@ == "transaction history fetch failed"@,
    {
        match self {
            Error::InvalidAddressFormat => "invalid address format",
            Error::NonEoaOwner => "owner address is not an externally owned account",
            Error::MalformedCallData => "malformed approve call data",
            Error::MetadataQueryFailed => "token metadata query failed",
            Error::AllowanceQueryFailed => "allowance query failed",
            Error::TransactionHistoryFetchFailed => "transaction history fetch failed",
        }
    }
}

} // verus!
