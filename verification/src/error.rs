//! The error kinds of the engine and the result type that carries them.

use vstd::prelude::*;

verus! {

/// Every way an engine operation can fail.
#[derive(Copy, Clone, Debug, PartialEq, Eq, Structural)]
pub enum ErrorType {
    AssetNotFound(u128),
    PortfolioNotFound(u128),
    OrderNotFound(u128),
    NotEnoughMatchingOrdersToImmediatelyFillBestOrder,
    CantLockAmountForBestOrder,
    CantSplitOrder,
    InsufficientFreeAmount,
    InsufficientLockedAmount,
    InvalidAssetId,
    InvalidState,
    NoLimitForBestOrder,
    QuantityCantBeZero,
    LimitCantBeZero,
    EngineWasTooBusy,
}

/// What an engine operation returns.
pub type EngineResult<T> = Result<T, ErrorType>;

} // verus!
