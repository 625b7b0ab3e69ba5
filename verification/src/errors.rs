//! The ways in which an operation on a pool is refused.
use vstd::prelude::*;

verus! {

/// Why the pool refuses an operation.
#[derive(Clone, Copy, Debug, PartialEq, Eq, Structural)]
pub enum OpenAmmErrorCode {
    /// Base and quote are the same asset.
    InvalidPair,
    /// The open-orders account is not the one the pool was made with.
    WrongOpenOrdersAccount,
    /// The market is not the one the pool was made with.
    WrongMarketAccount,
    /// The base asset of the market is not the base asset of the pool.
    MarketBaseMintMismatch,
    /// The quote asset of the market is not the quote asset of the pool.
    MarketQuoteMintMismatch,
    /// The base amount that keeps the ratio lies outside what the caller set.
    SlippageBaseExceeded,
    /// The quote amount that keeps the ratio lies below what the caller set.
    SlippageQuoteExceeded,
    /// A restart was asked for while the pool was placing orders.
    MarketMakingAlreadyActive,
    /// A restart was asked for while the venue still held funds of the pool.
    OpenOrdersTokensLocked,
}

/// Why an operation ended without effect.
#[derive(Clone, Copy, Debug, PartialEq, Eq, Structural)]
pub enum Failure {
    /// An amount left the range of its type, a division had no divisor, or
    /// the curve could not be solved. The operation has to be abandoned as
    /// a whole.
    Arithmetic,
    /// The pool refused the operation.
    Rejected(OpenAmmErrorCode),
}

impl OpenAmmErrorCode {
    /// The message shown to a caller.
    pub fn message(&self) -> (r: &'static str)
        ensures
            r@ == self.spec_message(),
    {
        match self {
            OpenAmmErrorCode::InvalidPair => "OpenAmmErrorCode::InvalidPair - Pair is invalid",
            OpenAmmErrorCode::WrongOpenOrdersAccount => 
                "OpenAmmErrorCode::WrongOpenOrdersAccount - Wrong open orders account for pool",
            OpenAmmErrorCode::WrongMarketAccount => 
                "OpenAmmErrorCode::WrongMarket - Wrong market account for pool",
            OpenAmmErrorCode::MarketBaseMintMismatch => 
                "OpenAmmErrorCode::MarketBaseMintMismatch - Market base mint does not match token A",
            OpenAmmErrorCode::MarketQuoteMintMismatch => 
                "OpenAmmErrorCode::MarketQuoteMintMismatch - Market quote mint does not match token B",
            OpenAmmErrorCode::SlippageBaseExceeded => 
                "OpenAmmErrorCode::SlippageBaseExceeded - Slippage for base exceeded",
            OpenAmmErrorCode::SlippageQuoteExceeded => 
                "OpenAmmErrorCode::SlippageQuoteExceeded - Slippage for quote exceeded",
            OpenAmmErrorCode::MarketMakingAlreadyActive => 
                "OpenAmmErrorCode::MarketMakingAlreadyActive - Market making is already active",
            OpenAmmErrorCode::OpenOrdersTokensLocked => 
                "OpenAmmErrorCode::OpenOrdersTokensLocked - Open orders tokens are locked",
        }
    }

    /// The text of [`OpenAmmErrorCode::message`].
    pub open spec fn spec_message(&self) -> Seq<char> {
        match self {
            OpenAmmErrorCode::InvalidPair => "OpenAmmErrorCode::InvalidPair - Pair is invalid"@,
            OpenAmmErrorCode::WrongOpenOrdersAccount => 
                "OpenAmmErrorCode::WrongOpenOrdersAccount - Wrong open orders account for pool"@,
            OpenAmmErrorCode::WrongMarketAccount => 
                "OpenAmmErrorCode::WrongMarket - Wrong market account for pool"@,
            OpenAmmErrorCode::MarketBaseMintMismatch => 
                "OpenAmmErrorCode::MarketBaseMintMismatch - Market base mint does not match token A"@,
            OpenAmmErrorCode::MarketQuoteMintMismatch => 
                "OpenAmmErrorCode::MarketQuoteMintMismatch - Market quote mint does not match token B"@,
            OpenAmmErrorCode::SlippageBaseExceeded => 
                "OpenAmmErrorCode::SlippageBaseExceeded - Slippage for base exceeded"@,
            OpenAmmErrorCode::SlippageQuoteExceeded => 
                "OpenAmmErrorCode::SlippageQuoteExceeded - Slippage for quote exceeded"@,
            OpenAmmErrorCode::MarketMakingAlreadyActive => 
                "OpenAmmErrorCode::MarketMakingAlreadyActive - Market making is already active"@,
            OpenAmmErrorCode::OpenOrdersTokensLocked => 
                "OpenAmmErrorCode::OpenOrdersTokensLocked - Open orders tokens are locked"@,
        }
    }
}

} // verus!
